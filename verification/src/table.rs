//! The text of a CSV file as a table of cells.

use crate::error::{Error, Fault, Result};
use crate::text;
use vstd::prelude::*;

verus! {

/// The header row that the `csv` crate reads in a text, or what it says where
/// the row is not valid UTF-8.
pub uninterp spec fn csv_headers(bytes: Seq<u8>) -> std::result::Result<
    Seq<Seq<char>>,
    Seq<char>,
>;

/// What the `csv` crate reads behind the header row, record by record.
pub uninterp spec fn csv_records(bytes: Seq<u8>, flexible: bool) -> Seq<
    std::result::Result<Seq<Seq<char>>, Flaw>,
>;

/// Why a record could not be read.
#[derive(Debug)]
pub enum RowFault {
    /// It has another number of cells than the header row.
    Ragged { expected: u64, found: u64 },
    /// Any other failure, in the words of the `csv` crate.
    Csv(String),
}

/// What a [`RowFault`] says.
#[verifier::ext_equal]
pub enum Flaw {
    Ragged { expected: u64, found: u64 },
    Csv(Seq<char>),
}

impl View for RowFault {
    type V = Flaw;

    open spec fn view(&self) -> Flaw {
        match self {
            RowFault::Ragged { expected, found } => Flaw::Ragged {
                expected: *expected,
                found: *found,
            },
            RowFault::Csv(message) => Flaw::Csv(message@),
        }
    }
}

/// One record, or why there is none.
pub type Record = std::result::Result<Vec<String>, RowFault>;

pub open spec fn record_view(r: Record) -> std::result::Result<Seq<Seq<char>>, Flaw> {
    match r {
        Ok(cells) => Ok(text::texts(cells@)),
        Err(fault) => Err(fault@),
    }
}

pub open spec fn records_view(rs: Seq<Record>) -> Seq<
    std::result::Result<Seq<Seq<char>>, Flaw>,
> {
    Seq::new(rs.len(), |i: int| record_view(rs[i]))
}

/// `csv::Reader::headers`, on a reader of `bytes`: the first row, as text.
/// It depends on the bytes alone; a row that is not valid UTF-8 gives the
/// error's text.
#[verifier::external_body]
fn read_headers(bytes: &[u8]) -> (out: std::result::Result<Vec<String>, String>)
    ensures
        match out {
            Ok(headers) => csv_headers(bytes@) == Ok::<Seq<Seq<char>>, Seq<char>>(
                text::texts(headers@),
            ),
            Err(message) => csv_headers(bytes@) == Err::<Seq<Seq<char>>, Seq<char>>(message@),
        },
{
    let mut reader = csv::ReaderBuilder::new().from_reader(bytes);
    match reader.headers() {
        Ok(headers) => Ok(headers.iter().map(str::to_owned).collect()),
        Err(e) => Err(e.to_string()),
    }
}

/// `csv::Reader::records`, on a reader of `bytes` whose header row has been
/// read: every record behind that row, in order. It depends on the bytes and
/// on whether the reader is flexible alone. A reader that is not flexible
/// hands out only records that are as long as the header row, and where it
/// fails for length, the record has another length; a flexible one never
/// fails for length.
#[verifier::external_body]
fn read_records(bytes: &[u8], flexible: bool) -> (out: Vec<Record>)
    ensures
        records_view(out@) == csv_records(bytes@, flexible),
        forall|i: int|
            0 <= i < out@.len() && !flexible ==> (#[trigger] out@[i] matches Ok(cells) ==> (
            csv_headers(bytes@) matches Ok(h) ==> cells@.len() == h.len())),
        forall|i: int|
            0 <= i < out@.len() && !flexible ==> (#[trigger] out@[i] matches Err(
                RowFault::Ragged { expected, found },
            ) ==> expected != found && (csv_headers(bytes@) matches Ok(h) ==> expected
                == h.len())),
        forall|i: int|
            0 <= i < out@.len() && flexible ==> !(#[trigger] out@[i] matches Err(
                RowFault::Ragged { expected, found },
            )),
{
    let mut reader = csv::ReaderBuilder::new().flexible(flexible).from_reader(bytes);
    let _ = reader.headers();
    let convert = |record: std::result::Result<csv::StringRecord, csv::Error>| match record {
        Ok(cells) => Ok(cells.iter().map(str::to_owned).collect()),
        Err(e) => match *e.kind() {
            csv::ErrorKind::UnequalLengths { expected_len, len, .. } => Err(
                RowFault::Ragged { expected: expected_len, found: len },
            ),
            _ => Err(RowFault::Csv(e.to_string())),
        },
    };
    reader.records().map(convert).collect()
}

/// A CSV file: its header row, the records up to the first that could not be
/// read, and what was wrong with that one.
pub struct Table {
    pub headers: Vec<String>,
    pub rows: Vec<Vec<String>>,
    pub fault: Option<RowFault>,
}

/// The cells of a [`Table`].
#[verifier::ext_equal]
pub struct Grid {
    pub headers: Seq<Seq<char>>,
    pub rows: Seq<Seq<Seq<char>>>,
    pub fault: Option<Flaw>,
}

pub open spec fn rows_view(rows: Seq<Vec<String>>) -> Seq<Seq<Seq<char>>> {
    Seq::new(rows.len(), |i: int| text::texts(rows[i]@))
}

impl View for Table {
    type V = Grid;

    open spec fn view(&self) -> Grid {
        Grid {
            headers: text::texts(self.headers@),
            rows: rows_view(self.rows@),
            fault: match self.fault {
                Some(fault) => Some(fault@),
                None => None,
            },
        }
    }
}

/// How many records come before the first that could not be read.
pub open spec fn readable(
    records: Seq<std::result::Result<Seq<Seq<char>>, Flaw>>,
) -> int
    decreases records.len(),
{
    if records.len() > 0 && records[0] is Ok {
        1 + readable(records.drop_first())
    } else {
        0
    }
}

/// The table of a header row and the records behind it.
pub open spec fn grid(
    headers: Seq<Seq<char>>,
    records: Seq<std::result::Result<Seq<Seq<char>>, Flaw>>,
) -> Grid {
    let n = readable(records);
    Grid {
        headers,
        rows: Seq::new(n as nat, |i: int| records[i]->Ok_0),
        fault: if n < records.len() {
            Some(records[n]->Err_0)
        } else {
            None
        },
    }
}

/// The table that a text holds, or what is wrong with its header row.
pub open spec fn grid_of(bytes: Seq<u8>, flexible: bool) -> std::result::Result<Grid, Fault> {
    match csv_headers(bytes) {
        Ok(headers) => Ok(grid(headers, csv_records(bytes, flexible))),
        Err(message) => Err(Fault::Csv(message)),
    }
}

proof fn lemma_readable(
    records: Seq<std::result::Result<Seq<Seq<char>>, Flaw>>,
    n: int,
)
    requires
        0 <= n <= records.len(),
        forall|i: int| 0 <= i < n ==> #[trigger] records[i] is Ok,
        n < records.len() ==> records[n] is Err,
    ensures
        readable(records) == n,
    decreases records.len(),
{
    if n > 0 {
        assert(records[0] is Ok);
        let rest = records.drop_first();
        assert forall|i: int| 0 <= i < n - 1 implies #[trigger] rest[i] is Ok by {
            assert(rest[i] == records[i + 1]);
        }
        lemma_readable(rest, n - 1);
    }
}

/// Whether every record could be read.
pub open spec fn all_read(records: Seq<std::result::Result<Seq<Seq<char>>, Flaw>>) -> bool {
    forall|i: int| 0 <= i < records.len() ==> #[trigger] records[i] is Ok
}

/// Where no record is left over, every record could be read.
pub proof fn lemma_readable_all(records: Seq<std::result::Result<Seq<Seq<char>>, Flaw>>)
    ensures
        0 <= readable(records) <= records.len(),
        readable(records) == records.len() ==> all_read(records),
    decreases records.len(),
{
    if records.len() > 0 && records[0] is Ok {
        let rest = records.drop_first();
        lemma_readable_all(rest);
        if readable(records) == records.len() {
            assert forall|i: int| 0 <= i < records.len() implies #[trigger] records[i] is Ok by {
                if i > 0 {
                    assert(rest[i - 1] == records[i]);
                }
            }
        }
    }
}

impl Table {
    /// Put a header row and the records behind it together.
    pub fn new(headers: Vec<String>, records: Vec<Record>) -> (out: Table)
        ensures
            out@ == grid(text::texts(headers@), records_view(records@)),
            out.headers == headers,
            forall|i: int|
                0 <= i < out.rows@.len() ==> i < records@.len() && records@[i] == Ok::<
                    Vec<String>,
                    RowFault,
                >(#[trigger] out.rows@[i]),
            out.fault matches Some(fault) ==> out.rows@.len() < records@.len()
                && records@[out.rows@.len() as int] == Err::<Vec<String>, RowFault>(fault),
    {
        let ghost all = records@;
        let mut rows: Vec<Vec<String>> = Vec::new();
        let mut fault: Option<RowFault> = None;
        for record in it: records
            invariant
                it.seq() == all,
                match fault {
                    None => rows@.len() == it.index(),
                    Some(f) => rows@.len() < it.index() && all[rows@.len() as int] == Err::<
                        Vec<String>,
                        RowFault,
                    >(f),
                },
                forall|i: int|
                    0 <= i < rows@.len() ==> all[i] == Ok::<Vec<String>, RowFault>(
                        #[trigger] rows@[i],
                    ),
        {
            if fault.is_none() {
                match record {
                    Ok(cells) => {
                        rows.push(cells);
                    },
                    Err(f) => {
                        fault = Some(f);
                    },
                }
            }
        }
        proof {
            let rs = records_view(all);
            let n = rows@.len() as int;
            assert forall|i: int| 0 <= i < n implies #[trigger] rs[i] is Ok by {
                assert(all[i] == Ok::<Vec<String>, RowFault>(rows@[i]));
            }
            lemma_readable(rs, n);
            assert(rows_view(rows@) =~= Seq::new(n as nat, |i: int| rs[i]->Ok_0));
        }
        Table { headers, rows, fault }
    }
}

/// Read the text of a CSV file. A flexible reading accepts records of any
/// length; otherwise every record that is read is as long as the header row.
pub fn read_table(bytes: &[u8], flexible: bool) -> (out: Result<Table>)
    ensures
        match out {
            Ok(table) => {
                &&& grid_of(bytes@, flexible) == Ok::<Grid, Fault>(table@)
                &&& !flexible ==> rectangular(table@)
                &&& flexible ==> !(table@.fault matches Some(Flaw::Ragged { expected, found }))
            },
            Err(e) => grid_of(bytes@, flexible) == Err::<Grid, Fault>(e@),
        },
{
    match read_headers(bytes) {
        Ok(headers) => {
            let records = read_records(bytes, flexible);
            let table = Table::new(headers, records);
            proof {
                if !flexible {
                    assert forall|i: int| 0 <= i < table@.rows.len() implies (
                    #[trigger] table@.rows[i]).len() == table@.headers.len() by {
                        assert(records@[i] == Ok::<Vec<String>, RowFault>(table.rows@[i]));
                    }
                }
            }
            Ok(table)
        },
        Err(e) => Err(Error::Csv(e)),
    }
}

/// Every row is as long as the header row, and a record that breaks off the
/// table for its length is not.
pub open spec fn rectangular(g: Grid) -> bool {
    &&& forall|i: int| 0 <= i < g.rows.len() ==> (#[trigger] g.rows[i]).len() == g.headers.len()
    &&& g.fault matches Some(Flaw::Ragged { expected, found }) ==> expected == g.headers.len() && found
        != expected
}

/// The cell at a position; an empty one, where the row is too short.
pub open spec fn cell_at(row: Seq<Seq<char>>, at: int) -> Seq<char> {
    if 0 <= at < row.len() {
        row[at]
    } else {
        seq![]
    }
}

/// A table holds the records before the first that could not be read, each as
/// it is, and says what was wrong with that one.
pub proof fn lemma_grid(
    headers: Seq<Seq<char>>,
    records: Seq<std::result::Result<Seq<Seq<char>>, Flaw>>,
)
    ensures
        ({
            let g = grid(headers, records);
            &&& g.headers == headers
            &&& g.rows.len() <= records.len()
            &&& forall|i: int|
                0 <= i < g.rows.len() ==> #[trigger] records[i] == Ok::<Seq<Seq<char>>, Flaw>(
                    g.rows[i],
                )
            &&& match g.fault {
                Some(flaw) => g.rows.len() < records.len() && records[g.rows.len() as int] == Err::<
                    Seq<Seq<char>>,
                    Flaw,
                >(flaw),
                None => g.rows.len() == records.len(),
            }
        }),
{
    lemma_readable_front(records);
}

proof fn lemma_readable_front(records: Seq<std::result::Result<Seq<Seq<char>>, Flaw>>)
    ensures
        0 <= readable(records) <= records.len(),
        forall|i: int| 0 <= i < readable(records) ==> #[trigger] records[i] is Ok,
        readable(records) < records.len() ==> records[readable(records)] is Err,
    decreases records.len(),
{
    if records.len() > 0 && records[0] is Ok {
        let rest = records.drop_first();
        lemma_readable_front(rest);
        assert forall|i: int| 0 <= i < readable(records) implies #[trigger] records[i] is Ok by {
            if i > 0 {
                assert(rest[i - 1] == records[i]);
            }
        }
        if readable(records) < records.len() {
            assert(rest[readable(rest)] == records[readable(rest) + 1]);
        }
    }
}

/// A text is read as its header row and the records behind it, or not at all
/// where its header row could not be read.
pub proof fn lemma_grid_of(bytes: Seq<u8>, flexible: bool)
    ensures
        match csv_headers(bytes) {
            Ok(headers) => grid_of(bytes, flexible) == Ok::<Grid, Fault>(
                grid(headers, csv_records(bytes, flexible)),
            ),
            Err(message) => grid_of(bytes, flexible) == Err::<Grid, Fault>(Fault::Csv(message)),
        },
{
}

/// A row has the cells that it has, and empty ones behind them.
pub proof fn lemma_cell_at(row: Seq<Seq<char>>, at: int)
    requires
        0 <= at,
    ensures
        at < row.len() ==> cell_at(row, at) == row[at],
        at >= row.len() ==> cell_at(row, at) == Seq::<char>::empty(),
{
}

} // verus!
