//! What can go wrong.

use crate::text;
use vstd::prelude::*;

verus! {

pub type Result<T> = std::result::Result<T, Error>;

#[derive(Debug)]
pub enum Error {
    /// CSV parse failure, in the words of the `csv` crate.
    Csv(String),
    /// A malformed line in the manifest (the plain-text list of CSVs).
    Manifest { path: String, line: usize, message: String },
    /// Inference could not produce a usable schema (no columns, key column
    /// not found, and so on).
    Schema(String),
    /// A strict-mode data problem in a specific input file (ragged row, blank
    /// account key, headers that disagree with earlier files).
    Data { source: String, message: String },
    /// An input file holds more cells than this machine can count.
    TooLarge { source: String },
    /// A required environment variable was absent or empty.
    MissingEnv(&'static str),
    /// Command-line arguments did not parse.
    Usage(String),
}

/// What an error says.
#[verifier::ext_equal]
pub enum Fault {
    Csv(Seq<char>),
    Manifest { path: Seq<char>, line: int, message: Seq<char> },
    Schema(Seq<char>),
    Data { source: Seq<char>, message: Seq<char> },
    TooLarge { source: Seq<char> },
    MissingEnv(Seq<char>),
    Usage(Seq<char>),
}

impl View for Error {
    type V = Fault;

    open spec fn view(&self) -> Fault {
        match self {
            Error::Csv(message) => Fault::Csv(message@),
            Error::Manifest { path, line, message } => Fault::Manifest {
                path: path@,
                line: *line as int,
                message: message@,
            },
            Error::Schema(message) => Fault::Schema(message@),
            Error::Data { source, message } => Fault::Data { source: source@, message: message@ },
            Error::TooLarge { source } => Fault::TooLarge { source: source@ },
            Error::MissingEnv(name) => Fault::MissingEnv(name@),
            Error::Usage(message) => Fault::Usage(message@),
        }
    }
}

/// An error in words.
pub open spec fn description(fault: Fault) -> Seq<char> {
    match fault {
        Fault::Csv(message) => "csv error: "@ + message,
        Fault::Manifest { path, line, message } => path + ":"@ + text::decimal(line as nat) + ": "@
            + message,
        Fault::Schema(message) => "schema error: "@ + message,
        Fault::Data { source, message } => source + ": "@ + message,
        Fault::TooLarge { source } => source + ": too many cells to count"@,
        Fault::MissingEnv(name) => "missing environment variable "@ + name,
        Fault::Usage(message) => message,
    }
}

/// Two texts, one behind the other.
fn concat(front: &str, back: &str) -> (out: String)
    ensures
        out@ == front@ + back@,
{
    let mut out = front.to_owned();
    out.append(back);
    out
}

impl Error {
    /// The error in words.
    pub fn describe(&self) -> (out: String)
        ensures
            out@ == description(self@),
    {
        match self {
            Error::Csv(message) => concat("csv error: ", message.as_str()),
            Error::Manifest { path, line, message } => {
                let mut out = concat(path.as_str(), ":");
                out.append(text::decimal_text(*line as u128).as_str());
                out.append(": ");
                out.append(message.as_str());
                out
            },
            Error::Schema(message) => concat("schema error: ", message.as_str()),
            Error::Data { source, message } => {
                let place = concat(source.as_str(), ": ");
                concat(place.as_str(), message.as_str())
            },
            Error::TooLarge { source } => concat(source.as_str(), ": too many cells to count"),
            Error::MissingEnv(name) => concat("missing environment variable ", name),
            Error::Usage(message) => message.clone(),
        }
    }
}

/// What each error says.
pub proof fn lemma_descriptions(a: Seq<char>, b: Seq<char>, line: int)
    ensures
        description(Fault::Csv(a)) == "csv error: "@ + a,
        description(Fault::Manifest { path: a, line, message: b }) == a + ":"@ + text::decimal(
            line as nat,
        ) + ": "@ + b,
        description(Fault::Schema(a)) == "schema error: "@ + a,
        description(Fault::Data { source: a, message: b }) == a + ": "@ + b,
        description(Fault::TooLarge { source: a }) == a + ": too many cells to count"@,
        description(Fault::MissingEnv(a)) == "missing environment variable "@ + a,
        description(Fault::Usage(a)) == a,
{
}

} // verus!
