//! What to store of the CSVs: only the deltas.
//!
//! Loading an attribute value is an *upsert in time*: close the current open
//! range at the observation instant only if the value actually changed, then
//! open a fresh `[at, infinity)` range only if none currently covers `at`. A
//! re-seen, unchanged value writes nothing - that is the whole point, since
//! most data is repeated per month.
//!
//! Every value crosses the wire as text and is cast to the column's inferred
//! type in SQL. The cast is written `$n::text::numeric` rather than
//! `$n::numeric` on purpose: the doubled cast pins the *parameter* type to
//! `text` (so we can always bind a string), while the outer cast still
//! produces the real column type and lets Postgres validate it. A single
//! `$n::numeric` would make Postgres infer the parameter itself as numeric
//! and reject the string bind. This keeps one generic upsert working for
//! every column without per-type plumbing.

use crate::error::{Error, Fault, Result};
use crate::infer;
use crate::infer::{Column, ColumnFacts, Options, Schema, SchemaFacts};
use crate::months;
use crate::months::Row;
use crate::order;
use crate::order::TextSet;
use crate::profile;
use crate::scalar;
use crate::table;
use crate::table::{Grid, Table};
use crate::text;
use crate::util;
use vstd::prelude::*;

verus! {

/// Tallies returned for the run summary.
#[derive(Debug, Clone, Copy, PartialEq, Eq, Structural)]
pub struct Stats {
    pub files: usize,
    pub rows: usize,
    pub skipped: usize,
}

/// How to load, beyond the connection itself: which cells count as null,
/// whether to validate strictly, which attributes are temporal (`changed`,
/// aligned to the schema's attributes), and whether creating the schema bakes
/// in checks.
pub struct Config<'a> {
    pub null_tokens: &'a [String],
    pub strict: bool,
    pub changed: &'a [bool],
    pub checks: bool,
}

/// The attributes below `n` that change over time, or those that do not.
pub open spec fn picked(changed: Seq<bool>, n: int, wanted: bool) -> Seq<int>
    decreases n,
{
    if n <= 0 {
        seq![]
    } else if changed[n - 1] == wanted {
        picked(changed, n - 1, wanted).push(n - 1)
    } else {
        picked(changed, n - 1, wanted)
    }
}

/// How many attributes both lists speak of.
pub open spec fn shared(attrs: nat, changed: nat) -> int {
    if attrs < changed {
        attrs as int
    } else {
        changed as int
    }
}

/// The attributes split by whether they change over time: static ones are
/// written inline on the account row, changing ones go through the temporal
/// upsert.
pub struct Layout {
    pub statics: Vec<usize>,
    pub changing: Vec<usize>,
}

pub open spec fn places(v: Seq<usize>) -> Seq<int> {
    Seq::new(v.len(), |i: int| v[i] as int)
}

impl Layout {
    /// The split of `n_attr` attributes.
    pub open spec fn splits(&self, n_attr: nat, changed: Seq<bool>) -> bool {
        let n = shared(n_attr, changed.len());
        &&& places(self.statics@) == picked(changed, n, false)
        &&& places(self.changing@) == picked(changed, n, true)
        &&& forall|i: int| 0 <= i < self.statics@.len() ==> #[trigger] self.statics@[i] < n_attr
        &&& forall|i: int| 0 <= i < self.changing@.len() ==> #[trigger] self.changing@[i] < n_attr
    }
}

/// Split the attributes by whether they change over time.
pub fn split(n_attr: usize, changed: &[bool]) -> (out: Layout)
    ensures
        out.splits(n_attr as nat, changed@),
{
    let n: usize = if n_attr < changed.len() {
        n_attr
    } else {
        changed.len()
    };
    let mut statics: Vec<usize> = Vec::new();
    let mut changing: Vec<usize> = Vec::new();
    assert(places(statics@) =~= seq![]);
    assert(places(changing@) =~= seq![]);
    for a in 0..n
        invariant
            n <= n_attr,
            n <= changed@.len(),
            places(statics@) == picked(changed@, a as int, false),
            places(changing@) == picked(changed@, a as int, true),
            forall|i: int| 0 <= i < statics@.len() ==> #[trigger] statics@[i] < n_attr,
            forall|i: int| 0 <= i < changing@.len() ==> #[trigger] changing@[i] < n_attr,
    {
        if changed[a] {
            let ghost was = changing@;
            changing.push(a);
            assert(places(changing@) =~= places(was).push(a as int));
        } else {
            let ghost was = statics@;
            statics.push(a);
            assert(places(statics@) =~= places(was).push(a as int));
        }
    }
    Layout { statics, changing }
}

/// What to do with a row.
pub enum Action {
    /// Leave it out, since it names no account.
    Skip,
    /// Store the account: its key, the cells of the static attributes, and
    /// those of the changing ones.
    Write { key: String, statics: Row, changing: Row },
}

/// What an [`Action`] says.
#[verifier::ext_equal]
pub enum Deed {
    Skip,
    Write { key: Seq<char>, statics: Seq<Option<Seq<char>>>, changing: Seq<Option<Seq<char>>> },
}

impl View for Action {
    type V = Deed;

    open spec fn view(&self) -> Deed {
        match self {
            Action::Skip => Deed::Skip,
            Action::Write { key, statics, changing } => Deed::Write {
                key: key@,
                statics: months::cells_view(statics@),
                changing: months::cells_view(changing@),
            },
        }
    }
}

pub open spec fn deeds(v: Seq<Action>) -> Seq<Deed> {
    Seq::new(v.len(), |i: int| v[i]@)
}

/// What to do with the rows of a file, up to the first that is at fault.
pub struct Plan {
    pub actions: Vec<Action>,
    pub fault: Option<Error>,
}

/// What a [`Plan`] says.
#[verifier::ext_equal]
pub struct Deeds {
    pub actions: Seq<Deed>,
    pub fault: Option<Fault>,
}

impl View for Plan {
    type V = Deeds;

    open spec fn view(&self) -> Deeds {
        Deeds {
            actions: deeds(self.actions@),
            fault: match self.fault {
                Some(e) => Some(e@),
                None => None,
            },
        }
    }
}

/// The cells of a row under the headers of some attributes.
pub open spec fn attr_cells(
    attrs: Seq<ColumnFacts>,
    which: Seq<int>,
    headers: Seq<Seq<char>>,
    row: Seq<Seq<char>>,
    null_tokens: Seq<Seq<char>>,
) -> Seq<Option<Seq<char>>> {
    Seq::new(
        which.len(),
        |i: int|
            util::cell(months::cell_under(headers, row, attrs[which[i]].header), null_tokens),
    )
}

/// What is wrong with a row that repeats an account of the same file.
pub open spec fn repeated_key(source: Seq<char>, row: nat, key: Seq<char>) -> Fault {
    Fault::Data {
        source,
        message: "row "@ + text::decimal(row + 2) + ": duplicate account key `"@ + key + "`"@,
    }
}

/// The account keys of some rows.
pub open spec fn row_keys(
    headers: Seq<Seq<char>>,
    rows: Seq<Seq<Seq<char>>>,
    key: Seq<char>,
) -> Seq<Seq<char>> {
    Seq::new(rows.len(), |r: int| months::cell_under(headers, rows[r], key))
}

/// What to do with a row, or what is wrong with it. One row per account per
/// month: a repeat key is rejected in strict mode rather than silently
/// upserting the same account twice.
pub open spec fn row_deed(
    schema: SchemaFacts,
    cfg: Config,
    source: Seq<char>,
    headers: Seq<Seq<char>>,
    rows: Seq<Seq<Seq<char>>>,
    r: int,
) -> std::result::Result<Deed, Fault> {
    let key = months::cell_under(headers, rows[r], schema.key.header);
    let tokens = text::texts(cfg.null_tokens@);
    let n = shared(schema.attrs.len(), cfg.changed@.len());
    if util::null(key, tokens) {
        if cfg.strict {
            Err(months::blank_key(source, r as nat, schema.key.header))
        } else {
            Ok(Deed::Skip)
        }
    } else if cfg.strict && row_keys(headers, rows.take(r), schema.key.header).contains(key) {
        Err(repeated_key(source, r as nat, key))
    } else {
        Ok(
            Deed::Write {
                key,
                statics: attr_cells(
                    schema.attrs,
                    picked(cfg.changed@, n, false),
                    headers,
                    rows[r],
                    tokens,
                ),
                changing: attr_cells(
                    schema.attrs,
                    picked(cfg.changed@, n, true),
                    headers,
                    rows[r],
                    tokens,
                ),
            },
        )
    }
}

/// What to do with the first `n` rows.
pub open spec fn rows_deeds(
    schema: SchemaFacts,
    cfg: Config,
    source: Seq<char>,
    headers: Seq<Seq<char>>,
    rows: Seq<Seq<Seq<char>>>,
    n: nat,
) -> Deeds
    decreases n,
{
    if n == 0 {
        Deeds { actions: seq![], fault: None }
    } else {
        let before = rows_deeds(schema, cfg, source, headers, rows, (n - 1) as nat);
        if before.fault is Some {
            before
        } else {
            match row_deed(schema, cfg, source, headers, rows, n - 1) {
                Ok(deed) => Deeds { actions: before.actions.push(deed), fault: None },
                Err(fault) => Deeds { actions: before.actions, fault: Some(fault) },
            }
        }
    }
}

/// What to do with a file.
pub open spec fn file_deeds(schema: SchemaFacts, cfg: Config, source: Seq<char>, g: Grid) -> Deeds {
    let all = rows_deeds(schema, cfg, source, g.headers, g.rows, g.rows.len());
    if all.fault is None && g.fault is Some {
        Deeds {
            actions: all.actions,
            fault: Some(infer::row_fault(source, g.rows.len(), g.fault->0)),
        }
    } else {
        all
    }
}

proof fn lemma_deeds_stop(
    schema: SchemaFacts,
    cfg: Config,
    source: Seq<char>,
    headers: Seq<Seq<char>>,
    rows: Seq<Seq<Seq<char>>>,
    n: nat,
    m: nat,
)
    requires
        n <= m,
        rows_deeds(schema, cfg, source, headers, rows, n).fault is Some,
    ensures
        rows_deeds(schema, cfg, source, headers, rows, m) == rows_deeds(
            schema,
            cfg,
            source,
            headers,
            rows,
            n,
        ),
    decreases m,
{
    if n < m {
        lemma_deeds_stop(schema, cfg, source, headers, rows, n, (m - 1) as nat);
    }
}

/// Where the headers of some attributes stand.
fn find_attrs(attrs: &Vec<Column>, which: &Vec<usize>, headers: &[String]) -> (out: Vec<
    Option<usize>,
>)
    requires
        forall|i: int| 0 <= i < which@.len() ==> #[trigger] which@[i] < attrs@.len(),
    ensures
        out@.len() == which@.len(),
        forall|i: int|
            0 <= i < out@.len() ==> found(
                text::texts(headers@),
                attrs@[which@[i] as int].header@,
                #[trigger] out@[i],
            ),
{
    let mut out: Vec<Option<usize>> = Vec::new();
    for i in 0..which.len()
        invariant
            forall|i: int| 0 <= i < which@.len() ==> #[trigger] which@[i] < attrs@.len(),
            out@.len() == i,
            forall|j: int|
                0 <= j < i ==> found(
                    text::texts(headers@),
                    attrs@[which@[j] as int].header@,
                    #[trigger] out@[j],
                ),
    {
        out.push(months::find_header(headers, attrs[which[i]].header.as_str()));
    }
    out
}

/// Whether a header stands where it is said to.
spec fn found(headers: Seq<Seq<char>>, h: Seq<char>, at: Option<usize>) -> bool {
    months::position(headers, h) == match at {
        Some(i) => Some(i as int),
        None => None,
    }
}

/// The error for a row that repeats an account.
fn repeated_key_error(source: &str, row: usize, key: &str) -> (out: Error)
    ensures
        out@ == repeated_key(source@, row as nat, key@),
{
    let mut message = "row ".to_owned();
    message.append(text::decimal_text(row as u128 + 2).as_str());
    message.append(": duplicate account key `");
    message.append(key);
    message.append("`");
    Error::Data { source: source.to_owned(), message }
}

/// Decide what to do with the rows of one month's CSV.
pub fn plan_file(schema: &Schema, cfg: &Config, source: &str, t: &Table) -> (out: Plan)
    ensures
        out@ == file_deeds(schema@, *cfg, source@, t@),
{
    let ghost headers = t@.headers;
    let ghost rows = t@.rows;
    let ghost tokens = text::texts(cfg.null_tokens@);
    let key_idx = months::find_header(t.headers.as_slice(), schema.key.header.as_str());
    let layout = split(schema.attrs.len(), cfg.changed);
    // Header positions are resolved once, here.
    let static_idx = find_attrs(&schema.attrs, &layout.statics, t.headers.as_slice());
    let changing_idx = find_attrs(&schema.attrs, &layout.changing, t.headers.as_slice());

    let mut seen = TextSet::new();
    let mut actions: Vec<Action> = Vec::new();
    assert(deeds(actions@) =~= seq![]);
    assert(row_keys(headers, rows.take(0), schema@.key.header).to_set() =~= Set::empty());
    for r in 0..t.rows.len()
        invariant
            headers == t@.headers,
            rows == t@.rows,
            tokens == text::texts(cfg.null_tokens@),
            found(headers, schema@.key.header, key_idx),
            layout.splits(schema@.attrs.len(), cfg.changed@),
            static_idx@.len() == layout.statics@.len(),
            forall|i: int|
                0 <= i < static_idx@.len() ==> found(
                    headers,
                    schema.attrs@[layout.statics@[i] as int].header@,
                    #[trigger] static_idx@[i],
                ),
            changing_idx@.len() == layout.changing@.len(),
            forall|i: int|
                0 <= i < changing_idx@.len() ==> found(
                    headers,
                    schema.attrs@[layout.changing@[i] as int].header@,
                    #[trigger] changing_idx@[i],
                ),
            seen.wf(),
            cfg.strict ==> seen@ == row_keys(
                headers,
                rows.take(r as int),
                schema@.key.header,
            ).to_set(),
            (Deeds { actions: deeds(actions@), fault: None }) == rows_deeds(
                schema@,
                *cfg,
                source@,
                headers,
                rows,
                r as nat,
            ),
    {
        let row = &t.rows[r];
        let key = months::cell_where(row, key_idx);
        let ghost keys = row_keys(headers, rows.take(r as int), schema@.key.header);
        let ghost was = actions@;
        proof {
            assert(rows[r as int] == text::texts(row@));
            assert(row_keys(headers, rows.take(r + 1), schema@.key.header) =~= keys.push(key@));
            order::lemma_push_set(keys, key@);
        }
        if util::is_null(key, cfg.null_tokens) {
            if cfg.strict {
                proof {
                    lemma_deeds_stop(
                        schema@,
                        *cfg,
                        source@,
                        headers,
                        rows,
                        (r + 1) as nat,
                        rows.len(),
                    );
                }
                let e = months::blank_key_error(source, r, schema.key.header.as_str());
                return Plan { actions, fault: Some(e) };
            }
            actions.push(Action::Skip);
        } else {
            if cfg.strict {
                if seen.contains(key) {
                    proof {
                        lemma_deeds_stop(
                            schema@,
                            *cfg,
                            source@,
                            headers,
                            rows,
                            (r + 1) as nat,
                            rows.len(),
                        );
                    }
                    return Plan { actions, fault: Some(repeated_key_error(source, r, key)) };
                }
                seen.insert(key);
            }
            let statics = months::cells_at(row, static_idx.as_slice(), cfg.null_tokens);
            let changing = months::cells_at(row, changing_idx.as_slice(), cfg.null_tokens);
            proof {
                let n = shared(schema@.attrs.len(), cfg.changed@.len());
                lemma_cells(
                    schema@.attrs,
                    places(layout.statics@),
                    headers,
                    text::texts(row@),
                    tokens,
                    static_idx@,
                );
                lemma_cells(
                    schema@.attrs,
                    places(layout.changing@),
                    headers,
                    text::texts(row@),
                    tokens,
                    changing_idx@,
                );
            }
            actions.push(Action::Write { key: key.to_owned(), statics, changing });
        }
        assert(deeds(actions@) =~= deeds(was).push(actions@[actions@.len() - 1]@));
    }
    match &t.fault {
        Some(fault) => {
            let e = infer::row_error(source, t.rows.len(), fault);
            Plan { actions, fault: Some(e) }
        },
        None => Plan { actions, fault: None },
    }
}

proof fn lemma_cells(
    attrs: Seq<ColumnFacts>,
    which: Seq<int>,
    headers: Seq<Seq<char>>,
    row: Seq<Seq<char>>,
    tokens: Seq<Seq<char>>,
    at: Seq<Option<usize>>,
)
    requires
        at.len() == which.len(),
        forall|i: int|
            0 <= i < at.len() ==> found(headers, attrs[which[i]].header, #[trigger] at[i]),
    ensures
        attr_cells(attrs, which, headers, row, tokens) == Seq::new(
            at.len(),
            |a: int|
                util::cell(
                    match at[a] {
                        Some(i) => table::cell_at(row, i as int),
                        None => seq![],
                    },
                    tokens,
                ),
        ),
{
    assert forall|i: int| 0 <= i < at.len() implies #[trigger] attr_cells(
        attrs,
        which,
        headers,
        row,
        tokens,
    )[i] == util::cell(
        match at[i] {
            Some(k) => table::cell_at(row, k as int),
            None => seq![],
        },
        tokens,
    ) by {
        assert(found(headers, attrs[which[i]].header, at[i]));
    }
}

/// How many rows a plan leaves out.
pub open spec fn skips(actions: Seq<Deed>) -> nat
    decreases actions.len(),
{
    if actions.len() == 0 {
        0
    } else if actions.last() is Skip {
        skips(actions.drop_last()) + 1
    } else {
        skips(actions.drop_last())
    }
}

/// How many rows a plan stores.
pub open spec fn writes(actions: Seq<Deed>) -> nat
    decreases actions.len(),
{
    if actions.len() == 0 {
        0
    } else if actions.last() is Write {
        writes(actions.drop_last()) + 1
    } else {
        writes(actions.drop_last())
    }
}

impl Stats {
    /// The tallies before any file.
    pub fn new() -> (out: Stats)
        ensures
            out == (Stats { files: 0, rows: 0, skipped: 0 }),
    {
        Stats { files: 0, rows: 0, skipped: 0 }
    }

    /// Count a file that was loaded as planned. Fails, and counts nothing,
    /// where a tally would be too large.
    pub fn record(&mut self, source: &str, plan: &Plan) -> (out: Result<()>)
        ensures
            ({
                let rows = old(self).rows + writes(plan@.actions);
                let skipped = old(self).skipped + skips(plan@.actions);
                let fits = old(self).files < usize::MAX && rows <= usize::MAX && skipped
                    <= usize::MAX;
                match out {
                    Ok(_) => fits && *final(self) == (Stats {
                        files: (old(self).files + 1) as usize,
                        rows: rows as usize,
                        skipped: skipped as usize,
                    }),
                    Err(e) => !fits && *final(self) == *old(self) && e@ == (Fault::TooLarge {
                        source: source@,
                    }),
                }
            }),
    {
        let ghost all = plan@.actions;
        let mut rows: u128 = self.rows as u128;
        let mut skipped: u128 = self.skipped as u128;
        for i in 0..plan.actions.len()
            invariant
                all == plan@.actions,
                self == old(self),
                rows == self.rows + writes(all.take(i as int)),
                skipped == self.skipped + skips(all.take(i as int)),
                rows <= self.rows + i,
                skipped <= self.skipped + i,
        {
            proof {
                assert(all.take(i + 1).drop_last() =~= all.take(i as int));
                assert(all.take(i + 1).last() == plan.actions@[i as int]@);
            }
            match &plan.actions[i] {
                Action::Skip => {
                    skipped = skipped + 1;
                },
                Action::Write { .. } => {
                    rows = rows + 1;
                },
            }
        }
        assert(all.take(all.len() as int) =~= all);
        if self.files == usize::MAX || rows > usize::MAX as u128 || skipped > usize::MAX as u128 {
            return Err(Error::TooLarge { source: source.to_owned() });
        }
        *self = Stats { files: self.files + 1, rows: rows as usize, skipped: skipped as usize };
        Ok(())
    }
}

/// The statement that records a processed file and returns the request's id.
/// Its parameters are the source and the instant.
pub open spec fn request_statement(schema: Seq<char>) -> Seq<char> {
    "INSERT INTO "@ + schema
        + ".import_request (source, at) VALUES ($1, $2::text::timestamptz) RETURNING id"@
}

fn request_sql(schema: &Schema) -> (out: String)
    ensures
        out@ == request_statement(schema@.name),
{
    let mut sql = "INSERT INTO ".to_owned();
    sql.append(schema.name.as_str());
    sql.append(".import_request (source, at) VALUES ($1, $2::text::timestamptz) RETURNING id");
    sql
}

/// The columns of the account row: the key and the static attributes.
pub open spec fn account_columns(key: Seq<char>, statics: Seq<ColumnFacts>) -> Seq<char>
    decreases statics.len(),
{
    if statics.len() == 0 {
        key
    } else {
        account_columns(key, statics.drop_last()) + ", "@ + statics.last().ident
    }
}

/// The parameters for those columns, each a text that is cast to the column's
/// type.
pub open spec fn account_values(ty: Seq<char>, statics: Seq<ColumnFacts>) -> Seq<char>
    decreases statics.len(),
{
    if statics.len() == 0 {
        "$1::text::"@ + ty
    } else {
        account_values(ty, statics.drop_last()) + ", $"@ + text::decimal(statics.len() + 1)
            + "::text::"@ + scalar::sql_name(statics.last().ty)
    }
}

/// Some of the attributes.
pub open spec fn chosen(attrs: Seq<ColumnFacts>, which: Seq<int>) -> Seq<ColumnFacts> {
    Seq::new(which.len(), |i: int| attrs[which[i]])
}

/// The statement that inserts the account on first sighting, or fetches its
/// surrogate id on a repeat. The no-op `DO UPDATE` (rather than `DO NOTHING`)
/// is what lets `RETURNING` hand back the existing row's id on conflict. The
/// request id and the static attribute values only take effect on the insert
/// path; on conflict the account keeps its original first-seen provenance and
/// (immutable) static values. The parameters are the key, the static cells
/// and the request id.
pub open spec fn account_statement(
    schema: Seq<char>,
    key: ColumnFacts,
    statics: Seq<ColumnFacts>,
) -> Seq<char> {
    "INSERT INTO "@ + schema + ".account ("@ + (account_columns(key.ident, statics)
        + ", request_id"@) + ") VALUES ("@ + (account_values(scalar::sql_name(key.ty), statics)
        + ", $"@ + text::decimal(statics.len() + 2)) + ") ON CONFLICT ("@ + key.ident
        + ") DO UPDATE SET "@ + key.ident + " = EXCLUDED."@ + key.ident + " RETURNING id"@
}

fn account_sql(schema: &Schema, layout: &Layout) -> (out: String)
    requires
        forall|i: int|
            0 <= i < layout.statics@.len() ==> #[trigger] layout.statics@[i]
                < schema.attrs@.len(),
    ensures
        out@ == account_statement(
            schema@.name,
            schema@.key,
            chosen(schema@.attrs, places(layout.statics@)),
        ),
{
    let ghost statics = chosen(schema@.attrs, places(layout.statics@));
    let kcol = schema.key.ident.as_str();
    let mut cols = kcol.to_owned();
    let mut vals = "$1::text::".to_owned();
    vals.append(schema.key.ty.sql());
    for i in 0..layout.statics.len()
        invariant
            statics == chosen(schema@.attrs, places(layout.statics@)),
            forall|i: int|
                0 <= i < layout.statics@.len() ==> #[trigger] layout.statics@[i]
                    < schema.attrs@.len(),
            cols@ == account_columns(schema@.key.ident, statics.take(i as int)),
            vals@ == account_values(scalar::sql_name(schema@.key.ty), statics.take(i as int)),
    {
        let col = &schema.attrs[layout.statics[i]];
        proof {
            assert(statics.take(i + 1).drop_last() =~= statics.take(i as int));
            assert(statics.take(i + 1).last() == col@);
        }
        cols.append(", ");
        cols.append(col.ident.as_str());
        vals.append(", $");
        vals.append(text::decimal_text(i as u128 + 2).as_str());
        vals.append("::text::");
        vals.append(col.ty.sql());
    }
    assert(statics.take(statics.len() as int) =~= statics);
    cols.append(", request_id");
    vals.append(", $");
    vals.append(text::decimal_text(layout.statics.len() as u128 + 2).as_str());
    let mut sql = "INSERT INTO ".to_owned();
    sql.append(schema.name.as_str());
    sql.append(".account (");
    sql.append(cols.as_str());
    sql.append(") VALUES (");
    sql.append(vals.as_str());
    sql.append(") ON CONFLICT (");
    sql.append(kcol);
    sql.append(") DO UPDATE SET ");
    sql.append(kcol);
    sql.append(" = EXCLUDED.");
    sql.append(kcol);
    sql.append(" RETURNING id");
    sql
}

/// The history table of an attribute.
pub open spec fn history_table(schema: Seq<char>, ident: Seq<char>) -> Seq<char> {
    schema + ".account_"@ + ident
}

/// The statement that closes the open range of an attribute where the value
/// changed. The parameters are the account id, the value and the instant.
pub open spec fn close_statement(schema: Seq<char>, col: ColumnFacts) -> Seq<char> {
    "UPDATE "@ + history_table(schema, col.ident)
        + " SET during = tstzrange(lower(during), $3::text::timestamptz) WHERE id = $1 AND during @> $3::text::timestamptz AND "@
        + col.ident + " IS DISTINCT FROM $2::text::"@ + scalar::sql_name(col.ty)
}

/// The statement that opens a range for an attribute where none covers the
/// instant. The parameters are the account id, the value, the request id and
/// the instant.
pub open spec fn open_statement(schema: Seq<char>, col: ColumnFacts) -> Seq<char> {
    "INSERT INTO "@ + history_table(schema, col.ident) + " (id, "@ + col.ident
        + ", request_id, during) SELECT $1, $2::text::"@ + scalar::sql_name(col.ty)
        + ", $3, tstzrange($4::text::timestamptz, 'infinity') WHERE NOT EXISTS (SELECT 1 FROM "@
        + history_table(schema, col.ident) + " WHERE id = $1 AND during @> $4::text::timestamptz)"@
}

fn history_name(schema: &str, ident: &str) -> (out: String)
    ensures
        out@ == history_table(schema@, ident@),
{
    let mut table = schema.to_owned();
    table.append(".account_");
    table.append(ident);
    table
}

fn close_sql(schema: &str, col: &Column) -> (out: String)
    ensures
        out@ == close_statement(schema@, col@),
{
    let table = history_name(schema, col.ident.as_str());
    let mut sql = "UPDATE ".to_owned();
    sql.append(table.as_str());
    sql.append(
        " SET during = tstzrange(lower(during), $3::text::timestamptz) WHERE id = $1 AND during @> $3::text::timestamptz AND ",
    );
    sql.append(col.ident.as_str());
    sql.append(" IS DISTINCT FROM $2::text::");
    sql.append(col.ty.sql());
    sql
}

fn open_sql(schema: &str, col: &Column) -> (out: String)
    ensures
        out@ == open_statement(schema@, col@),
{
    let table = history_name(schema, col.ident.as_str());
    let mut sql = "INSERT INTO ".to_owned();
    sql.append(table.as_str());
    sql.append(" (id, ");
    sql.append(col.ident.as_str());
    sql.append(", request_id, during) SELECT $1, $2::text::");
    sql.append(col.ty.sql());
    sql.append(", $3, tstzrange($4::text::timestamptz, 'infinity') WHERE NOT EXISTS (SELECT 1 FROM ");
    sql.append(table.as_str());
    sql.append(" WHERE id = $1 AND during @> $4::text::timestamptz)");
    sql
}

/// A parameter of a statement: the id that the account statement returned,
/// the id that the request statement returned, or a text, where nothing is an
/// SQL `NULL`.
pub enum Param {
    Account,
    Request,
    Text(Option<String>),
}

/// What a [`Param`] says.
#[verifier::ext_equal]
pub enum Arg {
    Account,
    Request,
    Text(Option<Seq<char>>),
}

impl View for Param {
    type V = Arg;

    open spec fn view(&self) -> Arg {
        match self {
            Param::Account => Arg::Account,
            Param::Request => Arg::Request,
            Param::Text(t) => Arg::Text(profile::text_opt(*t)),
        }
    }
}

/// A statement for Postgres, with its parameters.
pub struct Statement {
    pub sql: String,
    pub params: Vec<Param>,
}

/// What a [`Statement`] says.
#[verifier::ext_equal]
pub struct Call {
    pub sql: Seq<char>,
    pub params: Seq<Arg>,
}

pub open spec fn args(v: Seq<Param>) -> Seq<Arg> {
    Seq::new(v.len(), |i: int| v[i]@)
}

impl View for Statement {
    type V = Call;

    open spec fn view(&self) -> Call {
        Call { sql: self.sql@, params: args(self.params@) }
    }
}

pub open spec fn calls(v: Seq<Statement>) -> Seq<Call> {
    Seq::new(v.len(), |i: int| v[i]@)
}

pub open spec fn text_arg(t: Seq<char>) -> Arg {
    Arg::Text(Some(t))
}

/// Record a processed file.
pub open spec fn request_call(schema: SchemaFacts, source: Seq<char>, at: Seq<char>) -> Call {
    Call { sql: request_statement(schema.name), params: seq![text_arg(source), text_arg(at)] }
}

/// The statement that records a processed file, with its source and the
/// observation instant shared by every range it writes.
pub fn insert_request(schema: &Schema, source: &str, at: &str) -> (out: Statement)
    ensures
        out@ == request_call(schema@, source@, at@),
{
    let mut params: Vec<Param> = Vec::new();
    params.push(Param::Text(Some(source.to_owned())));
    params.push(Param::Text(Some(at.to_owned())));
    assert(args(params@) =~= seq![text_arg(source@), text_arg(at@)]);
    Statement { sql: request_sql(schema), params }
}

/// The static attributes of a schema.
pub open spec fn static_attrs(schema: SchemaFacts, changed: Seq<bool>) -> Seq<ColumnFacts> {
    chosen(schema.attrs, picked(changed, shared(schema.attrs.len(), changed.len()), false))
}

/// The changing attributes of a schema.
pub open spec fn changing_attrs(schema: SchemaFacts, changed: Seq<bool>) -> Seq<ColumnFacts> {
    chosen(schema.attrs, picked(changed, shared(schema.attrs.len(), changed.len()), true))
}

/// Insert an account, or fetch its id.
pub open spec fn account_call(
    schema: SchemaFacts,
    changed: Seq<bool>,
    key: Seq<char>,
    statics: Seq<Option<Seq<char>>>,
) -> Call {
    Call {
        sql: account_statement(schema.name, schema.key, static_attrs(schema, changed)),
        params: seq![text_arg(key)] + Seq::new(statics.len(), |i: int| Arg::Text(statics[i]))
            + seq![Arg::Request],
    }
}

/// Insert the account on first sighting, or fetch its surrogate id on a
/// repeat.
pub fn ensure_account(schema: &Schema, changed: &[bool], key: &str, statics: &Row) -> (out:
    Statement)
    ensures
        out@ == account_call(schema@, changed@, key@, months::cells_view(statics@)),
{
    let layout = split(schema.attrs.len(), changed);
    let ghost cells = months::cells_view(statics@);
    let mut params: Vec<Param> = Vec::new();
    params.push(Param::Text(Some(key.to_owned())));
    assert(args(params@) =~= seq![text_arg(key@)] + Seq::new(0, |j: int| Arg::Text(cells[j])));
    for i in 0..statics.len()
        invariant
            cells == months::cells_view(statics@),
            args(params@) == seq![text_arg(key@)] + Seq::new(
                i as nat,
                |j: int| Arg::Text(cells[j]),
            ),
    {
        let ghost was = params@;
        params.push(Param::Text(copy_cell(&statics[i])));
        assert(args(params@) =~= args(was).push(Arg::Text(cells[i as int])));
        assert(args(params@) =~= seq![text_arg(key@)] + Seq::new(
            (i + 1) as nat,
            |j: int| Arg::Text(cells[j]),
        ));
    }
    let ghost was = params@;
    params.push(Param::Request);
    assert(args(params@) =~= args(was) + seq![Arg::Request]);
    Statement { sql: account_sql(schema, &layout), params }
}

/// The two statements that store one value.
pub open spec fn upsert_calls(
    schema: Seq<char>,
    col: ColumnFacts,
    value: Option<Seq<char>>,
    at: Seq<char>,
) -> Seq<Call> {
    seq![
        Call {
            sql: close_statement(schema, col),
            params: seq![Arg::Account, Arg::Text(value), text_arg(at)],
        },
        Call {
            sql: open_statement(schema, col),
            params: seq![Arg::Account, Arg::Text(value), Arg::Request, text_arg(at)],
        },
    ]
}

fn copy_cell(cell: &Option<String>) -> (out: Option<String>)
    ensures
        profile::text_opt(out) == profile::text_opt(*cell),
{
    match cell {
        Some(v) => Some(v.clone()),
        None => None,
    }
}

/// Temporally upsert one attribute (see module docs): close the open range
/// where the value changed, then open one where none covers the instant. The
/// value is bound as text and cast to the column type; a missing one becomes
/// a typed SQL `NULL`.
pub fn upsert_attr(schema: &str, col: &Column, value: &Option<String>, at: &str) -> (out: Vec<
    Statement,
>)
    ensures
        calls(out@) == upsert_calls(schema@, col@, profile::text_opt(*value), at@),
{
    let mut close: Vec<Param> = Vec::new();
    close.push(Param::Account);
    close.push(Param::Text(copy_cell(value)));
    close.push(Param::Text(Some(at.to_owned())));
    assert(args(close@) =~= seq![
        Arg::Account,
        Arg::Text(profile::text_opt(*value)),
        text_arg(at@),
    ]);
    let mut open: Vec<Param> = Vec::new();
    open.push(Param::Account);
    open.push(Param::Text(copy_cell(value)));
    open.push(Param::Request);
    open.push(Param::Text(Some(at.to_owned())));
    assert(args(open@) =~= seq![
        Arg::Account,
        Arg::Text(profile::text_opt(*value)),
        Arg::Request,
        text_arg(at@),
    ]);
    let mut out: Vec<Statement> = Vec::new();
    out.push(Statement { sql: close_sql(schema, col), params: close });
    out.push(Statement { sql: open_sql(schema, col), params: open });
    assert(calls(out@) =~= upsert_calls(schema@, col@, profile::text_opt(*value), at@));
    out
}

/// The statements that store the first `n` of some cells.
pub open spec fn cells_calls(
    schema: Seq<char>,
    cols: Seq<ColumnFacts>,
    cells: Seq<Option<Seq<char>>>,
    at: Seq<char>,
    n: int,
) -> Seq<Call>
    decreases n,
{
    if n <= 0 {
        seq![]
    } else {
        cells_calls(schema, cols, cells, at, n - 1) + upsert_calls(
            schema,
            cols[n - 1],
            cells[n - 1],
            at,
        )
    }
}

/// The statements that store what changes of an account.
pub open spec fn changes_calls(
    schema: SchemaFacts,
    changed: Seq<bool>,
    changing: Seq<Option<Seq<char>>>,
    at: Seq<char>,
) -> Seq<Call> {
    let cols = changing_attrs(schema, changed);
    cells_calls(schema.name, cols, changing, at, shared(cols.len(), changing.len()))
}

/// Temporally upsert the changing attributes of an account, in the order of
/// the schema.
pub fn upsert_attrs(schema: &Schema, changed: &[bool], changing: &Row, at: &str) -> (out: Vec<
    Statement,
>)
    ensures
        calls(out@) == changes_calls(schema@, changed@, months::cells_view(changing@), at@),
{
    let layout = split(schema.attrs.len(), changed);
    let ghost cols = changing_attrs(schema@, changed@);
    let ghost cells = months::cells_view(changing@);
    let n: usize = if layout.changing.len() < changing.len() {
        layout.changing.len()
    } else {
        changing.len()
    };
    proof {
        assert(cols.len() == places(layout.changing@).len());
    }
    let mut out: Vec<Statement> = Vec::new();
    assert(calls(out@) =~= seq![]);
    for i in 0..n
        invariant
            n <= layout.changing@.len(),
            n <= changing@.len(),
            layout.splits(schema@.attrs.len(), changed@),
            cols == changing_attrs(schema@, changed@),
            cells == months::cells_view(changing@),
            calls(out@) == cells_calls(schema@.name, cols, cells, at@, i as int),
    {
        let col = &schema.attrs[layout.changing[i]];
        proof {
            assert(places(layout.changing@)[i as int] == layout.changing@[i as int] as int);
            assert(cols[i as int] == col@);
        }
        let ghost was = out@;
        let mut pair = upsert_attr(schema.name.as_str(), col, &changing[i], at);
        let ghost more = pair@;
        out.append(&mut pair);
        assert(calls(out@) =~= calls(was) + calls(more));
    }
    out
}

/// Every attribute is stored in exactly one way: inline on the account row,
/// or through the temporal upsert.
pub proof fn lemma_every_attr_stored_once(changed: Seq<bool>, n_attr: nat, a: int)
    requires
        n_attr <= changed.len(),
        0 <= a < n_attr,
    ensures
        picked(changed, n_attr as int, changed[a]).contains(a),
        !picked(changed, n_attr as int, !changed[a]).contains(a),
        picked(changed, n_attr as int, false).no_duplicates(),
        picked(changed, n_attr as int, true).no_duplicates(),
{
    lemma_picked(changed, n_attr as int, false);
    lemma_picked(changed, n_attr as int, true);
}

proof fn lemma_picked(changed: Seq<bool>, n: int, wanted: bool)
    requires
        0 <= n <= changed.len(),
    ensures
        picked(changed, n, wanted).no_duplicates(),
        forall|a: int| #[trigger]
            picked(changed, n, wanted).contains(a) <==> (0 <= a < n && changed[a] == wanted),
    decreases n,
{
    if n > 0 {
        lemma_picked(changed, n - 1, wanted);
        let front = picked(changed, n - 1, wanted);
        let all = picked(changed, n, wanted);
        assert forall|a: int| #[trigger]
            all.contains(a) <==> (0 <= a < n && changed[a] == wanted) by {
            order::lemma_push_set(front, n - 1);
            assert(front.contains(a) == front.to_set().contains(a));
            assert(front.push(n - 1).contains(a) == front.push(n - 1).to_set().contains(a));
        }
        assert(!front.contains(n - 1));
        assert forall|i: int, j: int| 0 <= i < all.len() && 0 <= j < all.len() && i != j implies all[i]
            != all[j] by {
            assert(i < front.len() ==> front.contains(front[i]));
            assert(j < front.len() ==> front.contains(front[j]));
        }
    }
}

/// A file without a fault is dealt with row by row, none forgotten: a row is
/// left out exactly where it has no account key.
pub proof fn lemma_every_row_planned(
    schema: SchemaFacts,
    cfg: Config,
    source: Seq<char>,
    g: Grid,
    r: int,
)
    requires
        0 <= r < g.rows.len(),
        file_deeds(schema, cfg, source, g).fault is None,
    ensures
        file_deeds(schema, cfg, source, g).actions.len() == g.rows.len(),
        Ok::<Deed, Fault>(file_deeds(schema, cfg, source, g).actions[r]) == row_deed(
            schema,
            cfg,
            source,
            g.headers,
            g.rows,
            r,
        ),
        file_deeds(schema, cfg, source, g).actions[r] is Skip <==> util::null(
            months::cell_under(g.headers, g.rows[r], schema.key.header),
            text::texts(cfg.null_tokens@),
        ),
{
    lemma_rows_planned(schema, cfg, source, g.headers, g.rows, g.rows.len(), r);
}

proof fn lemma_rows_planned(
    schema: SchemaFacts,
    cfg: Config,
    source: Seq<char>,
    headers: Seq<Seq<char>>,
    rows: Seq<Seq<Seq<char>>>,
    n: nat,
    r: int,
)
    requires
        0 <= n <= rows.len(),
        rows_deeds(schema, cfg, source, headers, rows, n).fault is None,
    ensures
        rows_deeds(schema, cfg, source, headers, rows, n).actions.len() == n,
        0 <= r < n ==> Ok::<Deed, Fault>(
            rows_deeds(schema, cfg, source, headers, rows, n).actions[r],
        ) == row_deed(schema, cfg, source, headers, rows, r),
    decreases n,
{
    if n > 0 {
        lemma_rows_planned(schema, cfg, source, headers, rows, (n - 1) as nat, r);
    }
}

/// In strict mode a file without a fault stores every row, and no account
/// twice.
pub proof fn lemma_strict_accounts_distinct(
    schema: SchemaFacts,
    cfg: Config,
    source: Seq<char>,
    g: Grid,
    i: int,
    j: int,
)
    requires
        cfg.strict,
        0 <= i < j < g.rows.len(),
        file_deeds(schema, cfg, source, g).fault is None,
    ensures
        file_deeds(schema, cfg, source, g).actions[i] is Write,
        file_deeds(schema, cfg, source, g).actions[j] is Write,
        file_deeds(schema, cfg, source, g).actions[i]->key != file_deeds(
            schema,
            cfg,
            source,
            g,
        ).actions[j]->key,
{
    lemma_every_row_planned(schema, cfg, source, g, i);
    lemma_every_row_planned(schema, cfg, source, g, j);
    let keys = row_keys(g.headers, g.rows.take(j), schema.key.header);
    assert(keys[i] == months::cell_under(g.headers, g.rows[i], schema.key.header));
    assert(keys.contains(keys[i]));
}

/// A lenient load rejects no row that could be read.
pub proof fn lemma_lenient_accepts_rows(
    schema: SchemaFacts,
    cfg: Config,
    source: Seq<char>,
    g: Grid,
)
    requires
        !cfg.strict,
    ensures
        file_deeds(schema, cfg, source, g).actions.len() == g.rows.len(),
        file_deeds(schema, cfg, source, g).fault is None <==> g.fault is None,
{
    lemma_lenient_rows(schema, cfg, source, g.headers, g.rows, g.rows.len());
    lemma_rows_planned(schema, cfg, source, g.headers, g.rows, g.rows.len(), 0);
}

proof fn lemma_lenient_rows(
    schema: SchemaFacts,
    cfg: Config,
    source: Seq<char>,
    headers: Seq<Seq<char>>,
    rows: Seq<Seq<Seq<char>>>,
    n: nat,
)
    requires
        !cfg.strict,
    ensures
        rows_deeds(schema, cfg, source, headers, rows, n).fault is None,
    decreases n,
{
    if n > 0 {
        lemma_lenient_rows(schema, cfg, source, headers, rows, (n - 1) as nat);
    }
}

proof fn lemma_position(headers: Seq<Seq<char>>, h: Seq<char>)
    ensures
        match months::position(headers, h) {
            Some(i) => 0 <= i < headers.len() && headers[i] == h,
            None => !headers.contains(h),
        },
    decreases headers.len(),
{
    if headers.len() > 0 {
        let p = headers.drop_last();
        lemma_position(p, h);
        if months::position(p, h) is None && headers.last() != h {
            assert forall|i: int| 0 <= i < headers.len() implies headers[i] != h by {
                if i < p.len() {
                    assert(p[i] == headers[i]);
                    assert(p.contains(p[i]));
                }
            }
        }
    }
}

/// Inference and loading agree: whatever a row of the scanned files holds in
/// an attribute fits the type that it is cast to, and a cell is missing only
/// where the attribute is nullable.
pub proof fn lemma_loaded_values_fit(
    grids: Seq<Grid>,
    sources: Seq<Seq<char>>,
    opts: Options,
    a: int,
    file: int,
    row: int,
)
    requires
        0 <= file < grids.len(),
        0 <= row < grids[file].rows.len(),
    ensures
        infer::schema_of(grids, sources, opts) matches Ok(schema) ==> (0 <= a < schema.attrs.len()
            ==> {
            let col = schema.attrs[a];
            match util::cell(
                months::cell_under(grids[file].headers, grids[file].rows[row], col.header),
                opts.nulls(),
            ) {
                Some(v) => scalar::fits(col.ty, v),
                None => col.nullable,
            }
        }),
{
    if let Ok(schema) = infer::schema_of(grids, sources, opts) {
        if 0 <= a < schema.attrs.len() {
            let col = schema.attrs[a];
            let h = col.header;
            let headers = grids[file].headers;
            lemma_position(headers, h);
            match months::position(headers, h) {
                Some(at) => {
                    infer::lemma_every_month_counts(
                        grids,
                        h,
                        col.ident,
                        opts,
                        true,
                        file,
                        row,
                        at,
                    );
                },
                None => {
                    infer::lemma_missing_column_is_null(grids, h, col.ident, opts, true, file);
                },
            }
        }
    }
}

/// The attributes are picked in the order of the schema, by whether they
/// change.
pub proof fn lemma_picked_exact(changed: Seq<bool>, n: int, wanted: bool, a: int)
    requires
        0 <= n <= changed.len(),
    ensures
        picked(changed, n, wanted).contains(a) <==> 0 <= a < n && changed[a] == wanted,
        forall|i: int, j: int|
            0 <= i < j < picked(changed, n, wanted).len() ==> #[trigger] picked(changed, n, wanted)[i]
                < #[trigger] picked(changed, n, wanted)[j],
    decreases n,
{
    lemma_picked(changed, n, wanted);
    if n > 0 {
        lemma_picked_exact(changed, n - 1, wanted, a);
        let front = picked(changed, n - 1, wanted);
        lemma_picked(changed, n - 1, wanted);
        assert forall|i: int, j: int|
            0 <= i < j < picked(changed, n, wanted).len() implies #[trigger] picked(
            changed,
            n,
            wanted,
        )[i] < #[trigger] picked(changed, n, wanted)[j] by {
            if j == front.len() {
                assert(front.contains(front[i]));
            }
        }
    }
}

/// What to do with a row: it is refused or left out where it has no key,
/// refused in strict mode where an earlier row has the same key, and otherwise
/// stored with its key and, for each static and each changing attribute, the
/// cell under that attribute's own header.
pub proof fn lemma_row_deed(
    schema: SchemaFacts,
    cfg: Config,
    source: Seq<char>,
    headers: Seq<Seq<char>>,
    rows: Seq<Seq<Seq<char>>>,
    r: int,
)
    requires
        0 <= r < rows.len(),
    ensures
        ({
            let tokens = text::texts(cfg.null_tokens@);
            let key = months::cell_under(headers, rows[r], schema.key.header);
            let n = if schema.attrs.len() < cfg.changed@.len() {
                schema.attrs.len() as int
            } else {
                cfg.changed@.len() as int
            };
            let still = picked(cfg.changed@, n, false);
            let moving = picked(cfg.changed@, n, true);
            let repeated = exists|q: int|
                0 <= q < r && months::cell_under(headers, #[trigger] rows[q], schema.key.header)
                    == key;
            let deed = row_deed(schema, cfg, source, headers, rows, r);
            &&& util::null(key, tokens) && cfg.strict ==> deed == Err::<Deed, Fault>(
                months::blank_key(source, r as nat, schema.key.header),
            )
            &&& util::null(key, tokens) && !cfg.strict ==> deed == Ok::<Deed, Fault>(Deed::Skip)
            &&& !util::null(key, tokens) && cfg.strict && repeated ==> deed == Err::<Deed, Fault>(
                Fault::Data {
                    source,
                    message: "row "@ + text::decimal((r + 2) as nat) + ": duplicate account key `"@
                        + key + "`"@,
                },
            )
            &&& !util::null(key, tokens) && !(cfg.strict && repeated) ==> (deed matches Ok(
                Deed::Write { key: stored, statics, changing },
            ) && {
                &&& stored == key
                &&& statics.len() == still.len()
                &&& changing.len() == moving.len()
                &&& forall|i: int|
                    0 <= i < still.len() ==> #[trigger] statics[i] == util::cell(
                        months::cell_under(headers, rows[r], schema.attrs[still[i]].header),
                        tokens,
                    )
                &&& forall|i: int|
                    0 <= i < moving.len() ==> #[trigger] changing[i] == util::cell(
                        months::cell_under(headers, rows[r], schema.attrs[moving[i]].header),
                        tokens,
                    )
            })
        }),
{
    let key = months::cell_under(headers, rows[r], schema.key.header);
    let keys = row_keys(headers, rows.take(r), schema.key.header);
    if keys.contains(key) {
        let q = choose|q: int| 0 <= q < keys.len() && keys[q] == key;
        assert(rows.take(r)[q] == rows[q]);
        assert(months::cell_under(headers, rows[q], schema.key.header) == key);
    }
    if exists|q: int|
        0 <= q < r && months::cell_under(headers, #[trigger] rows[q], schema.key.header) == key {
        let q = choose|q: int|
            0 <= q < r && months::cell_under(headers, #[trigger] rows[q], schema.key.header) == key;
        assert(rows.take(r)[q] == rows[q]);
        assert(keys[q] == key);
    }
}

/// The rows of a file are dealt with in order up to the first that is at
/// fault, and an unreadable record comes behind them.
pub proof fn lemma_file_deeds(
    schema: SchemaFacts,
    cfg: Config,
    source: Seq<char>,
    g: Grid,
    n: nat,
)
    requires
        n < g.rows.len(),
    ensures
        rows_deeds(schema, cfg, source, g.headers, g.rows, 0) == (Deeds {
            actions: seq![],
            fault: None,
        }),
        ({
            let before = rows_deeds(schema, cfg, source, g.headers, g.rows, n);
            rows_deeds(schema, cfg, source, g.headers, g.rows, n + 1) == if before.fault is Some {
                before
            } else {
                match row_deed(schema, cfg, source, g.headers, g.rows, n as int) {
                    Ok(deed) => Deeds { actions: before.actions.push(deed), fault: None },
                    Err(fault) => Deeds { actions: before.actions, fault: Some(fault) },
                }
            }
        }),
{
}

/// A file's deeds are those of all its rows, with the unreadable record behind
/// them as its fault where no row was at fault before.
pub proof fn lemma_file_fault(schema: SchemaFacts, cfg: Config, source: Seq<char>, g: Grid)
    ensures
        ({
            let all = rows_deeds(schema, cfg, source, g.headers, g.rows, g.rows.len());
            &&& file_deeds(schema, cfg, source, g).actions == all.actions
            &&& file_deeds(schema, cfg, source, g).fault == if all.fault is Some {
                all.fault
            } else {
                match g.fault {
                    Some(flaw) => Some(infer::row_fault(source, g.rows.len(), flaw)),
                    None => None,
                }
            }
        }),
{
}

/// The tallies count each action once: as a row stored or as a row skipped.
pub proof fn lemma_tallies(actions: Seq<Deed>, deed: Deed)
    ensures
        skips(seq![]) == 0 && writes(seq![]) == 0,
        skips(actions.push(deed)) == skips(actions) + if deed is Skip {
            1nat
        } else {
            0
        },
        writes(actions.push(deed)) == writes(actions) + if deed is Write {
            1nat
        } else {
            0
        },
{
    assert(actions.push(deed).drop_last() =~= actions);
}

/// The request statement, with the file's name and instant bound in this
/// order.
pub proof fn lemma_request(schema: SchemaFacts, source: Seq<char>, at: Seq<char>)
    ensures
        request_call(schema, source, at).sql == "INSERT INTO "@ + schema.name
            + ".import_request (source, at) VALUES ($1, $2::text::timestamptz) RETURNING id"@,
        request_call(schema, source, at).params == seq![
            Arg::Text(Some(source)),
            Arg::Text(Some(at)),
        ],
{
}

/// The account statement names the key, every static attribute in order and
/// the request; each but the last has a numbered text parameter that is cast
/// to its own type, and the parameters are bound in the same order.
pub proof fn lemma_account(
    schema: SchemaFacts,
    changed: Seq<bool>,
    key: Seq<char>,
    statics: Seq<Option<Seq<char>>>,
    cols: Seq<ColumnFacts>,
)
    requires
        cols == static_attrs(schema, changed),
    ensures
        ({
            let call = account_call(schema, changed, key, statics);
            let names = text::joined(
                seq![schema.key.ident] + Seq::new(cols.len(), |i: int| cols[i].ident) + seq![
                    "request_id"@,
                ],
                ", "@,
            );
            let values = text::joined(
                seq!["$1::text::"@ + scalar::sql_name(schema.key.ty)] + Seq::new(
                    cols.len(),
                    |i: int|
                        "$"@ + text::decimal((i + 2) as nat) + "::text::"@ + scalar::sql_name(
                            cols[i].ty,
                        ),
                ) + seq!["$"@ + text::decimal(cols.len() + 2)],
                ", "@,
            );
            &&& call.sql == "INSERT INTO "@ + schema.name + ".account ("@ + names + ") VALUES ("@
                + values + ") ON CONFLICT ("@ + schema.key.ident + ") DO UPDATE SET "@
                + schema.key.ident + " = EXCLUDED."@ + schema.key.ident + " RETURNING id"@
            &&& call.params.len() == statics.len() + 2
            &&& call.params[0] == Arg::Text(Some(key))
            &&& forall|i: int|
                0 <= i < statics.len() ==> call.params[i + 1] == Arg::Text(#[trigger] statics[i])
            &&& call.params.last() == Arg::Request
        }),
{
    reveal_strlit(", request_id");
    reveal_strlit("request_id");
    reveal_strlit(", $");
    reveal_strlit(", ");
    reveal_strlit("$");
    let names = seq![schema.key.ident] + Seq::new(cols.len(), |i: int| cols[i].ident);
    let ty = scalar::sql_name(schema.key.ty);
    let values = seq!["$1::text::"@ + ty] + Seq::new(
        cols.len(),
        |i: int|
            "$"@ + text::decimal((i + 2) as nat) + "::text::"@ + scalar::sql_name(cols[i].ty),
    );
    lemma_account_columns(schema.key.ident, cols);
    lemma_account_values(ty, cols);
    text::lemma_joined(names, "request_id"@, ", "@);
    let last = "$"@ + text::decimal(cols.len() + 2);
    text::lemma_joined(values, last, ", "@);
    assert(names + seq!["request_id"@] =~= names.push("request_id"@));
    assert(values + seq![last] =~= values.push(last));
    assert(", "@ + "request_id"@ =~= ", request_id"@);
    assert(account_columns(schema.key.ident, cols) + ", request_id"@ =~= text::joined(
        names,
        ", "@,
    ) + ", "@ + "request_id"@);
    assert(", "@ + "$"@ =~= ", $"@);
    assert(account_values(ty, cols) + ", $"@ + text::decimal(cols.len() + 2) =~= text::joined(
        values,
        ", "@,
    ) + ", "@ + last);
}

proof fn lemma_account_columns(key: Seq<char>, cols: Seq<ColumnFacts>)
    ensures
        account_columns(key, cols) == text::joined(
            seq![key] + Seq::new(cols.len(), |i: int| cols[i].ident),
            ", "@,
        ),
    decreases cols.len(),
{
    let names = seq![key] + Seq::new(cols.len(), |i: int| cols[i].ident);
    if cols.len() == 0 {
        assert(names =~= seq![key]);
        text::lemma_joined(seq![], key, ", "@);
    } else {
        let p = cols.drop_last();
        let front = seq![key] + Seq::new(p.len(), |i: int| p[i].ident);
        lemma_account_columns(key, p);
        text::lemma_joined(front, cols.last().ident, ", "@);
        assert(names =~= front.push(cols.last().ident));
    }
}

proof fn lemma_account_values(ty: Seq<char>, cols: Seq<ColumnFacts>)
    ensures
        account_values(ty, cols) == text::joined(
            seq!["$1::text::"@ + ty] + Seq::new(
                cols.len(),
                |i: int|
                    "$"@ + text::decimal((i + 2) as nat) + "::text::"@ + scalar::sql_name(
                        cols[i].ty,
                    ),
            ),
            ", "@,
        ),
    decreases cols.len(),
{
    reveal_strlit(", $");
    reveal_strlit(", ");
    reveal_strlit("$");
    let first = "$1::text::"@ + ty;
    let values = seq![first] + Seq::new(
        cols.len(),
        |i: int|
            "$"@ + text::decimal((i + 2) as nat) + "::text::"@ + scalar::sql_name(cols[i].ty),
    );
    if cols.len() == 0 {
        assert(values =~= seq![first]);
        text::lemma_joined(seq![], first, ", "@);
    } else {
        let p = cols.drop_last();
        let front = seq![first] + Seq::new(
            p.len(),
            |i: int| "$"@ + text::decimal((i + 2) as nat) + "::text::"@ + scalar::sql_name(p[i].ty),
        );
        let last = "$"@ + text::decimal(cols.len() + 1) + "::text::"@ + scalar::sql_name(
            cols.last().ty,
        );
        lemma_account_values(ty, p);
        text::lemma_joined(front, last, ", "@);
        assert(values =~= front.push(last));
        assert(", "@ + "$"@ =~= ", $"@);
        assert(account_values(ty, cols) =~= text::joined(front, ", "@) + ", "@ + last);
    }
}

/// The attributes of a row's statements are those that the split picks, each
/// at its own place.
pub proof fn lemma_split_attrs(schema: SchemaFacts, changed: Seq<bool>)
    ensures
        ({
            let n = if schema.attrs.len() < changed.len() {
                schema.attrs.len() as int
            } else {
                changed.len() as int
            };
            &&& static_attrs(schema, changed) == Seq::new(
                picked(changed, n, false).len(),
                |i: int| schema.attrs[picked(changed, n, false)[i]],
            )
            &&& changing_attrs(schema, changed) == Seq::new(
                picked(changed, n, true).len(),
                |i: int| schema.attrs[picked(changed, n, true)[i]],
            )
        }),
{
    let n = shared(schema.attrs.len(), changed.len());
    assert(static_attrs(schema, changed) =~= Seq::new(
        picked(changed, n, false).len(),
        |i: int| schema.attrs[picked(changed, n, false)[i]],
    ));
    assert(changing_attrs(schema, changed) =~= Seq::new(
        picked(changed, n, true).len(),
        |i: int| schema.attrs[picked(changed, n, true)[i]],
    ));
}

/// A value is stored by two statements on the history table of its attribute:
/// one that closes the range in force where the value differs, and one that
/// opens a range from the instant on where none is in force. Both bind the
/// account, the value and the instant, and the second the request.
pub proof fn lemma_upsert(
    schema: Seq<char>,
    col: ColumnFacts,
    value: Option<Seq<char>>,
    at: Seq<char>,
)
    ensures
        ({
            let calls = upsert_calls(schema, col, value, at);
            let table = schema + ".account_"@ + col.ident;
            let ty = scalar::sql_name(col.ty);
            &&& calls.len() == 2
            &&& calls[0].sql == "UPDATE "@ + table
                + " SET during = tstzrange(lower(during), $3::text::timestamptz) WHERE id = $1 AND during @> $3::text::timestamptz AND "@
                + col.ident + " IS DISTINCT FROM $2::text::"@ + ty
            &&& calls[0].params == seq![Arg::Account, Arg::Text(value), Arg::Text(Some(at))]
            &&& calls[1].sql == "INSERT INTO "@ + table + " (id, "@ + col.ident
                + ", request_id, during) SELECT $1, $2::text::"@ + ty
                + ", $3, tstzrange($4::text::timestamptz, 'infinity') WHERE NOT EXISTS (SELECT 1 FROM "@
                + table + " WHERE id = $1 AND during @> $4::text::timestamptz)"@
            &&& calls[1].params == seq![
                Arg::Account,
                Arg::Text(value),
                Arg::Request,
                Arg::Text(Some(at)),
            ]
        }),
{
}

/// Every changing attribute is stored with its own cell: the statements at
/// twice its place and behind are on its history table and bind the cell that
/// stands at its place in the row.
pub proof fn lemma_own_cells_stored(
    schema: SchemaFacts,
    changed: Seq<bool>,
    changing: Seq<Option<Seq<char>>>,
    at: Seq<char>,
    i: int,
)
    requires
        0 <= i < changing.len(),
        i < changing_attrs(schema, changed).len(),
    ensures
        ({
            let cols = changing_attrs(schema, changed);
            let calls = changes_calls(schema, changed, changing, at);
            let pair = upsert_calls(schema.name, cols[i], changing[i], at);
            &&& calls.len() == 2 * (if cols.len() < changing.len() {
                cols.len()
            } else {
                changing.len()
            })
            &&& calls[2 * i] == pair[0]
            &&& calls[2 * i + 1] == pair[1]
            &&& calls[2 * i].params[1] == Arg::Text(changing[i])
            &&& calls[2 * i + 1].params[1] == Arg::Text(changing[i])
        }),
{
    let cols = changing_attrs(schema, changed);
    lemma_cells_calls(schema.name, cols, changing, at, shared(cols.len(), changing.len()), i);
}

/// A row without changing cells needs no further statements.
pub proof fn lemma_nothing_changing(
    schema: SchemaFacts,
    changed: Seq<bool>,
    changing: Seq<Option<Seq<char>>>,
    at: Seq<char>,
)
    requires
        changing.len() == 0 || changing_attrs(schema, changed).len() == 0,
    ensures
        changes_calls(schema, changed, changing, at) == Seq::<Call>::empty(),
{
}

proof fn lemma_cells_calls(
    schema: Seq<char>,
    cols: Seq<ColumnFacts>,
    cells: Seq<Option<Seq<char>>>,
    at: Seq<char>,
    n: int,
    i: int,
)
    requires
        0 <= n <= cols.len(),
        n <= cells.len(),
    ensures
        cells_calls(schema, cols, cells, at, n).len() == 2 * n,
        0 <= i < n ==> {
            let calls = cells_calls(schema, cols, cells, at, n);
            let pair = upsert_calls(schema, cols[i], cells[i], at);
            calls[2 * i] == pair[0] && calls[2 * i + 1] == pair[1]
        },
    decreases n,
{
    if n > 0 {
        lemma_cells_calls(schema, cols, cells, at, n - 1, i);
    }
}

} // verus!
