//! The command line.

use crate::error::{Error, Fault, Result};
use crate::infer::Options;
use crate::number;
use crate::profile;
use crate::text;
use vstd::prelude::*;

verus! {

pub const USAGE: &'static str = "usage: csv-pg-schema <analyze|report|rust|load> --list FILE [options]
  analyze   scan the CSVs and print the temporal CREATE script
  report    diff the CSVs month over month (no database needed)
  rust      emit an InputRecord struct (and enums) for the schema
  load      process the CSVs in order, storing only the deltas

options:
  --list FILE        plain-text list of CSV paths, one per line (required)
  --schema NAME      target Postgres schema name (default: account)
  --key COL          account natural-key column (default: auto-detected)
  --enum-max N       max distinct values to treat a column as enum-like (default: 32)
  --null-token TOK   value to treat as NULL besides empty (repeatable)
  --lenient          tolerate ragged rows, blank keys, and header drift
                     instead of erroring (default: strict)
  --with-checks      bake the inferred profile into the DDL as numeric(p,s)
                     types and CHECK constraints (analyze, load)
  -o, --out FILE     write output to a file instead of stdout (analyze, report, rust)
  --database-url URL postgres connection string (load; or env DATABASE_URL)
  --create-schema    run the CREATE script before loading (load)";

/// What to do.
#[derive(Clone, Copy, Debug, PartialEq, Eq, Structural)]
pub enum Command {
    Analyze,
    Report,
    Rust,
    Load,
}

/// What a run was asked to do.
pub struct Cli {
    pub command: Command,
    pub list: String,
    pub options: Options,
    pub out: Option<String>,
    pub database_url: Option<String>,
    pub create_schema: bool,
    pub with_checks: bool,
}

/// What a [`Cli`] says.
#[verifier::ext_equal]
pub struct Request {
    pub command: Command,
    pub list: Seq<char>,
    pub settings: Settings,
}

/// What the options say.
#[verifier::ext_equal]
pub struct Settings {
    pub list: Option<Seq<char>>,
    pub schema: Seq<char>,
    pub key: Option<Seq<char>>,
    pub enum_max: nat,
    pub null_tokens: Seq<Seq<char>>,
    pub strict: bool,
    pub out: Option<Seq<char>>,
    pub database_url: Option<Seq<char>>,
    pub create_schema: bool,
    pub with_checks: bool,
}

impl View for Cli {
    type V = Request;

    open spec fn view(&self) -> Request {
        Request {
            command: self.command,
            list: self.list@,
            settings: Settings {
                list: Some(self.list@),
                schema: self.options.schema@,
                key: profile::text_opt(self.options.key),
                enum_max: self.options.enum_max as nat,
                null_tokens: text::texts(self.options.null_tokens@),
                strict: self.options.strict,
                out: profile::text_opt(self.out),
                database_url: profile::text_opt(self.database_url),
                create_schema: self.create_schema,
                with_checks: self.with_checks,
            },
        }
    }
}

/// The settings without any option.
pub open spec fn defaults() -> Settings {
    Settings {
        list: None,
        schema: "account"@,
        key: None,
        enum_max: 32,
        null_tokens: seq![],
        strict: true,
        out: None,
        database_url: None,
        create_schema: false,
        with_checks: false,
    }
}

/// The command that a word stands for.
pub open spec fn command_of(word: Seq<char>) -> std::result::Result<Command, Fault> {
    if word == "analyze"@ {
        Ok(Command::Analyze)
    } else if word == "report"@ {
        Ok(Command::Report)
    } else if word == "rust"@ {
        Ok(Command::Rust)
    } else if word == "load"@ {
        Ok(Command::Load)
    } else if word == "-h"@ || word == "--help"@ || word == "help"@ {
        Err(Fault::Usage(USAGE@))
    } else {
        Err(Fault::Usage("unknown command `"@ + word + "`\n\n"@ + USAGE@))
    }
}

/// An option, by its name.
#[derive(Clone, Copy, PartialEq, Eq, Structural)]
pub enum Flag {
    List,
    Schema,
    Key,
    EnumMax,
    NullToken,
    Lenient,
    Out,
    DatabaseUrl,
    CreateSchema,
    WithChecks,
    Help,
}

/// The option that a word stands for.
pub open spec fn flag_of(word: Seq<char>) -> Option<Flag> {
    if word == "--list"@ {
        Some(Flag::List)
    } else if word == "--schema"@ {
        Some(Flag::Schema)
    } else if word == "--key"@ {
        Some(Flag::Key)
    } else if word == "--enum-max"@ {
        Some(Flag::EnumMax)
    } else if word == "--null-token"@ {
        Some(Flag::NullToken)
    } else if word == "--lenient"@ {
        Some(Flag::Lenient)
    } else if word == "-o"@ || word == "--out"@ {
        Some(Flag::Out)
    } else if word == "--database-url"@ {
        Some(Flag::DatabaseUrl)
    } else if word == "--create-schema"@ {
        Some(Flag::CreateSchema)
    } else if word == "--with-checks"@ {
        Some(Flag::WithChecks)
    } else if word == "-h"@ || word == "--help"@ {
        Some(Flag::Help)
    } else {
        None
    }
}

/// The name of an option that takes a value.
pub open spec fn valued(flag: Flag) -> Option<Seq<char>> {
    match flag {
        Flag::List => Some("--list"@),
        Flag::Schema => Some("--schema"@),
        Flag::Key => Some("--key"@),
        Flag::EnumMax => Some("--enum-max"@),
        Flag::NullToken => Some("--null-token"@),
        Flag::Out => Some("--out"@),
        Flag::DatabaseUrl => Some("--database-url"@),
        _ => None,
    }
}

/// The settings after an option with a value.
pub open spec fn with_value(s: Settings, flag: Flag, value: Seq<char>) -> std::result::Result<
    Settings,
    Fault,
> {
    match flag {
        Flag::List => Ok(Settings { list: Some(value), ..s }),
        Flag::Schema => Ok(Settings { schema: value, ..s }),
        Flag::Key => Ok(Settings { key: Some(value), ..s }),
        Flag::EnumMax => match number::count(value) {
            Some(n) => Ok(Settings { enum_max: n, ..s }),
            None => Err(
                Fault::Usage("--enum-max expects an integer, got `"@ + value + "`"@),
            ),
        },
        Flag::NullToken => Ok(Settings { null_tokens: s.null_tokens.push(value), ..s }),
        Flag::Out => Ok(Settings { out: Some(value), ..s }),
        Flag::DatabaseUrl => Ok(Settings { database_url: Some(value), ..s }),
        _ => Ok(s),
    }
}

/// The settings after an option without a value.
pub open spec fn switched(s: Settings, flag: Flag) -> Settings {
    match flag {
        Flag::Lenient => Settings { strict: false, ..s },
        Flag::CreateSchema => Settings { create_schema: true, ..s },
        Flag::WithChecks => Settings { with_checks: true, ..s },
        _ => s,
    }
}

/// The settings after some options. Of an option that is given twice the
/// later counts, but for the null tokens, which all count.
pub open spec fn settings_of(words: Seq<Seq<char>>, s: Settings) -> std::result::Result<
    Settings,
    Fault,
>
    decreases words.len(),
{
    if words.len() == 0 {
        Ok(s)
    } else {
        match flag_of(words[0]) {
            None => Err(Fault::Usage("unknown option `"@ + words[0] + "`\n\n"@ + USAGE@)),
            Some(Flag::Help) => Err(Fault::Usage(USAGE@)),
            Some(flag) => match valued(flag) {
                Some(name) => if words.len() == 1 {
                    Err(Fault::Usage(name + " expects a value"@))
                } else {
                    match with_value(s, flag, words[1]) {
                        Ok(next) => settings_of(words.skip(2), next),
                        Err(fault) => Err(fault),
                    }
                },
                None => settings_of(words.skip(1), switched(s, flag)),
            },
        }
    }
}

/// What a command line asks for, the program's own name left out.
pub open spec fn request_of(words: Seq<Seq<char>>) -> std::result::Result<Request, Fault> {
    if words.len() == 0 {
        Err(Fault::Usage(USAGE@))
    } else {
        match command_of(words[0]) {
            Err(fault) => Err(fault),
            Ok(command) => match settings_of(words.skip(1), defaults()) {
                Err(fault) => Err(fault),
                Ok(settings) => match settings.list {
                    Some(list) => Ok(Request { command, list, settings }),
                    None => Err(Fault::Usage("--list is required\n\n"@ + USAGE@)),
                },
            },
        }
    }
}

/// A usage error with the usage behind it.
fn usage_error(front: &str, word: &str, back: &str) -> (out: Error)
    ensures
        out@ == Fault::Usage(front@ + word@ + back@ + USAGE@),
{
    let mut message = front.to_owned();
    message.append(word);
    message.append(back);
    message.append(USAGE);
    Error::Usage(message)
}

fn read_command(word: &str) -> (out: Result<Command>)
    ensures
        match out {
            Ok(command) => command_of(word@) == Ok::<Command, Fault>(command),
            Err(e) => command_of(word@) == Err::<Command, Fault>(e@),
        },
{
    if text::same(word, "analyze") {
        Ok(Command::Analyze)
    } else if text::same(word, "report") {
        Ok(Command::Report)
    } else if text::same(word, "rust") {
        Ok(Command::Rust)
    } else if text::same(word, "load") {
        Ok(Command::Load)
    } else if text::same(word, "-h") || text::same(word, "--help") || text::same(word, "help") {
        Err(Error::Usage(USAGE.to_owned()))
    } else {
        Err(usage_error("unknown command `", word, "`\n\n"))
    }
}

fn read_flag(word: &str) -> (out: Option<Flag>)
    ensures
        out == flag_of(word@),
{
    if text::same(word, "--list") {
        Some(Flag::List)
    } else if text::same(word, "--schema") {
        Some(Flag::Schema)
    } else if text::same(word, "--key") {
        Some(Flag::Key)
    } else if text::same(word, "--enum-max") {
        Some(Flag::EnumMax)
    } else if text::same(word, "--null-token") {
        Some(Flag::NullToken)
    } else if text::same(word, "--lenient") {
        Some(Flag::Lenient)
    } else if text::same(word, "-o") || text::same(word, "--out") {
        Some(Flag::Out)
    } else if text::same(word, "--database-url") {
        Some(Flag::DatabaseUrl)
    } else if text::same(word, "--create-schema") {
        Some(Flag::CreateSchema)
    } else if text::same(word, "--with-checks") {
        Some(Flag::WithChecks)
    } else if text::same(word, "-h") || text::same(word, "--help") {
        Some(Flag::Help)
    } else {
        None
    }
}

/// The name of an option that takes a value.
fn value_name(flag: Flag) -> (out: Option<&'static str>)
    ensures
        match out {
            Some(name) => valued(flag) == Some(name@),
            None => valued(flag) is None,
        },
{
    match flag {
        Flag::List => Some("--list"),
        Flag::Schema => Some("--schema"),
        Flag::Key => Some("--key"),
        Flag::EnumMax => Some("--enum-max"),
        Flag::NullToken => Some("--null-token"),
        Flag::Out => Some("--out"),
        Flag::DatabaseUrl => Some("--database-url"),
        _ => None,
    }
}

/// The word at a position, as the value of an option.
pub fn value(args: &[String], at: usize, flag: &str) -> (out: Result<String>)
    ensures
        match out {
            Ok(word) => at < args@.len() && word@ == args@[at as int]@,
            Err(e) => at >= args@.len() && e@ == Fault::Usage(flag@ + " expects a value"@),
        },
{
    if at < args.len() {
        return Ok(args[at].clone());
    }
    let mut message = flag.to_owned();
    message.append(" expects a value");
    Err(Error::Usage(message))
}

/// The settings so far.
struct Draft {
    list: Option<String>,
    schema: String,
    key: Option<String>,
    enum_max: usize,
    null_tokens: Vec<String>,
    strict: bool,
    out: Option<String>,
    database_url: Option<String>,
    create_schema: bool,
    with_checks: bool,
}

impl View for Draft {
    type V = Settings;

    closed spec fn view(&self) -> Settings {
        Settings {
            list: profile::text_opt(self.list),
            schema: self.schema@,
            key: profile::text_opt(self.key),
            enum_max: self.enum_max as nat,
            null_tokens: text::texts(self.null_tokens@),
            strict: self.strict,
            out: profile::text_opt(self.out),
            database_url: profile::text_opt(self.database_url),
            create_schema: self.create_schema,
            with_checks: self.with_checks,
        }
    }
}

impl Draft {
    fn new() -> (out: Draft)
        ensures
            out@ == defaults(),
    {
        let out = Draft {
            list: None,
            schema: "account".to_owned(),
            key: None,
            enum_max: 32,
            null_tokens: Vec::new(),
            strict: true,
            out: None,
            database_url: None,
            create_schema: false,
            with_checks: false,
        };
        assert(text::texts(out.null_tokens@) =~= seq![]);
        out
    }

    /// Take an option with its value.
    fn set(&mut self, flag: Flag, word: String) -> (out: Result<()>)
        ensures
            match out {
                Ok(_) => with_value(old(self)@, flag, word@) == Ok::<Settings, Fault>(
                    final(self)@,
                ),
                Err(e) => with_value(old(self)@, flag, word@) == Err::<Settings, Fault>(e@),
            },
    {
        match flag {
            Flag::List => {
                self.list = Some(word);
            },
            Flag::Schema => {
                self.schema = word;
            },
            Flag::Key => {
                self.key = Some(word);
            },
            Flag::EnumMax => match number::read_count(word.as_str()) {
                Some(n) => {
                    self.enum_max = n;
                },
                None => {
                    let mut message = "--enum-max expects an integer, got `".to_owned();
                    message.append(word.as_str());
                    message.append("`");
                    return Err(Error::Usage(message));
                },
            },
            Flag::NullToken => {
                let ghost was = self.null_tokens@;
                let ghost token = word@;
                self.null_tokens.push(word);
                assert(text::texts(self.null_tokens@) =~= text::texts(was).push(token));
            },
            Flag::Out => {
                self.out = Some(word);
            },
            Flag::DatabaseUrl => {
                self.database_url = Some(word);
            },
            _ => {},
        }
        Ok(())
    }

    /// Take an option without a value.
    fn switch(&mut self, flag: Flag)
        ensures
            final(self)@ == switched(old(self)@, flag),
    {
        match flag {
            Flag::Lenient => {
                self.strict = false;
            },
            Flag::CreateSchema => {
                self.create_schema = true;
            },
            Flag::WithChecks => {
                self.with_checks = true;
            },
            _ => {},
        }
    }
}

/// Read the command line, the program's own name left out.
pub fn parse_args(args: &[String]) -> (out: Result<Cli>)
    ensures
        match out {
            Ok(cli) => request_of(text::texts(args@)) == Ok::<Request, Fault>(cli@),
            Err(e) => request_of(text::texts(args@)) == Err::<Request, Fault>(e@),
        },
{
    let ghost words = text::texts(args@);
    if args.len() == 0 {
        return Err(Error::Usage(USAGE.to_owned()));
    }
    let command = match read_command(args[0].as_str()) {
        Ok(command) => command,
        Err(e) => {
            return Err(e);
        },
    };
    let mut draft = Draft::new();
    let mut i: usize = 1;
    let len = args.len();
    while i < len
        invariant
            1 <= i <= len == args@.len(),
            words == text::texts(args@),
            command_of(words[0]) == Ok::<Command, Fault>(command),
            settings_of(words.skip(1), defaults()) == settings_of(words.skip(i as int), draft@),
        decreases len - i,
    {
        let ghost rest = words.skip(i as int);
        let ghost was = draft@;
        let word = args[i].as_str();
        assert(rest[0] == word@);
        let flag = match read_flag(word) {
            Some(flag) => flag,
            None => {
                return Err(usage_error("unknown option `", word, "`\n\n"));
            },
        };
        match flag {
            Flag::Help => {
                return Err(Error::Usage(USAGE.to_owned()));
            },
            _ => {},
        }
        match value_name(flag) {
            Some(name) => {
                let given = match value(args, i + 1, name) {
                    Ok(given) => given,
                    Err(e) => {
                        return Err(e);
                    },
                };
                assert(rest[1] == given@);
                assert(rest.skip(2) =~= words.skip(i + 2));
                if let Err(e) = draft.set(flag, given) {
                    return Err(e);
                }
                i = i + 2;
            },
            None => {
                assert(rest.skip(1) =~= words.skip(i + 1));
                draft.switch(flag);
                i = i + 1;
            },
        }
    }
    assert(words.skip(i as int).len() == 0);
    match draft.list {
        Some(list) => Ok(
            Cli {
                command,
                list,
                options: Options {
                    schema: draft.schema,
                    key: draft.key,
                    enum_max: draft.enum_max,
                    null_tokens: draft.null_tokens,
                    strict: draft.strict,
                },
                out: draft.out,
                database_url: draft.database_url,
                create_schema: draft.create_schema,
                with_checks: draft.with_checks,
            },
        ),
        None => {
            let mut message = "--list is required\n\n".to_owned();
            message.append(USAGE);
            Err(Error::Usage(message))
        },
    }
}

/// The connection string to use, or that there is none.
pub open spec fn url_of(given: Option<Seq<char>>, from_env: Option<Seq<char>>) -> std::result::Result<
    Seq<char>,
    Fault,
> {
    let pick = if given is Some {
        given
    } else {
        from_env
    };
    match pick {
        Some(url) => if url.len() > 0 {
            Ok(url)
        } else {
            Err(Fault::MissingEnv("DATABASE_URL"@))
        },
        None => Err(Fault::MissingEnv("DATABASE_URL"@)),
    }
}

pub open spec fn borrowed(t: Option<&String>) -> Option<Seq<char>> {
    match t {
        Some(s) => Some(s@),
        None => None,
    }
}

/// The connection string to use: the one given, or else that of the
/// environment. An empty one counts as missing.
pub fn database_url(given: Option<&String>, from_env: Option<&String>) -> (out: Result<String>)
    ensures
        match out {
            Ok(url) => url_of(borrowed(given), borrowed(from_env)) == Ok::<Seq<char>, Fault>(url@),
            Err(e) => url_of(borrowed(given), borrowed(from_env)) == Err::<Seq<char>, Fault>(e@),
        },
        ({
            let pick = match given {
                Some(url) => Some(url@),
                None => match from_env {
                    Some(url) => Some(url@),
                    None => None,
                },
            };
            match pick {
                Some(url) => if url.len() > 0 {
                    out matches Ok(chosen) && chosen@ == url
                } else {
                    out matches Err(e) && e@ == Fault::MissingEnv("DATABASE_URL"@)
                },
                None => out matches Err(e) && e@ == Fault::MissingEnv("DATABASE_URL"@),
            }
        }),
{
    let pick = match given {
        Some(url) => Some(url),
        None => from_env,
    };
    match pick {
        Some(url) => {
            if url.as_str().is_empty() {
                Err(Error::MissingEnv("DATABASE_URL"))
            } else {
                Ok(url.clone())
            }
        },
        None => Err(Error::MissingEnv("DATABASE_URL")),
    }
}

/// The first word is the command.
pub proof fn lemma_commands(word: Seq<char>)
    ensures
        command_of("analyze"@) == Ok::<Command, Fault>(Command::Analyze),
        command_of("report"@) == Ok::<Command, Fault>(Command::Report),
        command_of("rust"@) == Ok::<Command, Fault>(Command::Rust),
        command_of("load"@) == Ok::<Command, Fault>(Command::Load),
        word == "-h"@ || word == "--help"@ || word == "help"@ ==> command_of(word) == Err::<
            Command,
            Fault,
        >(Fault::Usage(USAGE@)),
        word != "analyze"@ && word != "report"@ && word != "rust"@ && word != "load"@ && word
            != "-h"@ && word != "--help"@ && word != "help"@ ==> command_of(word) == Err::<
            Command,
            Fault,
        >(Fault::Usage("unknown command `"@ + word + "`\n\n"@ + USAGE@)),
{
    reveal_strlit("analyze");
    reveal_strlit("report");
    reveal_strlit("rust");
    reveal_strlit("load");
    reveal_strlit("-h");
    reveal_strlit("--help");
    reveal_strlit("help");
    assert("analyze"@.len() == 7 && "report"@.len() == 6 && "rust"@.len() == 4);
    assert("load"@.len() == 4 && "-h"@.len() == 2 && "--help"@.len() == 6 && "help"@.len() == 4);
    assert("rust"@[0] == 'r' && "load"@[0] == 'l' && "help"@[0] == 'h');
    assert("report"@[0] == 'r' && "--help"@[0] == '-');
}

/// What is known of the option words: no two are the same.
proof fn lemma_words()
    ensures
        flag_of("--list"@) == Some(Flag::List),
        flag_of("--schema"@) == Some(Flag::Schema),
        flag_of("--key"@) == Some(Flag::Key),
        flag_of("--enum-max"@) == Some(Flag::EnumMax),
        flag_of("--null-token"@) == Some(Flag::NullToken),
        flag_of("--lenient"@) == Some(Flag::Lenient),
        flag_of("-o"@) == Some(Flag::Out),
        flag_of("--out"@) == Some(Flag::Out),
        flag_of("--database-url"@) == Some(Flag::DatabaseUrl),
        flag_of("--create-schema"@) == Some(Flag::CreateSchema),
        flag_of("--with-checks"@) == Some(Flag::WithChecks),
        flag_of("-h"@) == Some(Flag::Help),
        flag_of("--help"@) == Some(Flag::Help),
{
    reveal_strlit("--list");
    reveal_strlit("--schema");
    reveal_strlit("--key");
    reveal_strlit("--enum-max");
    reveal_strlit("--null-token");
    reveal_strlit("--lenient");
    reveal_strlit("-o");
    reveal_strlit("--out");
    reveal_strlit("--database-url");
    reveal_strlit("--create-schema");
    reveal_strlit("--with-checks");
    reveal_strlit("-h");
    reveal_strlit("--help");
    assert("--list"@.len() == 6 && "--list"@[2] == 'l');
    assert("--schema"@.len() == 8 && "--schema"@[2] == 's');
    assert("--key"@.len() == 5 && "--key"@[2] == 'k');
    assert("--enum-max"@.len() == 10 && "--enum-max"@[2] == 'e');
    assert("--null-token"@.len() == 12 && "--null-token"@[2] == 'n');
    assert("--lenient"@.len() == 9 && "--lenient"@[2] == 'l');
    assert("-o"@.len() == 2 && "-o"@[1] == 'o');
    assert("--out"@.len() == 5 && "--out"@[2] == 'o');
    assert("--database-url"@.len() == 14 && "--database-url"@[2] == 'd');
    assert("--create-schema"@.len() == 15 && "--create-schema"@[2] == 'c');
    assert("--with-checks"@.len() == 13 && "--with-checks"@[2] == 'w');
    assert("-h"@.len() == 2 && "-h"@[1] == 'h');
    assert("--help"@.len() == 6 && "--help"@[2] == 'h');
}

/// The options are read from left to right, each changes the setting that it
/// is there for and no other, and takes its value from the next word if it has
/// one.
pub proof fn lemma_options(s: Settings, value: Seq<char>, rest: Seq<Seq<char>>)
    ensures
        settings_of(seq![], s) == Ok::<Settings, Fault>(s),
        settings_of(seq!["--list"@, value] + rest, s) == settings_of(
            rest,
            Settings { list: Some(value), ..s },
        ),
        settings_of(seq!["--schema"@, value] + rest, s) == settings_of(
            rest,
            Settings { schema: value, ..s },
        ),
        settings_of(seq!["--key"@, value] + rest, s) == settings_of(
            rest,
            Settings { key: Some(value), ..s },
        ),
        number::count(value) matches Some(n) ==> settings_of(
            seq!["--enum-max"@, value] + rest,
            s,
        ) == settings_of(rest, Settings { enum_max: n, ..s }),
        number::count(value) is None ==> settings_of(seq!["--enum-max"@, value] + rest, s) == Err::<
            Settings,
            Fault,
        >(Fault::Usage("--enum-max expects an integer, got `"@ + value + "`"@)),
        settings_of(seq!["--null-token"@, value] + rest, s) == settings_of(
            rest,
            Settings { null_tokens: s.null_tokens.push(value), ..s },
        ),
        settings_of(seq!["-o"@, value] + rest, s) == settings_of(
            rest,
            Settings { out: Some(value), ..s },
        ),
        settings_of(seq!["--out"@, value] + rest, s) == settings_of(
            rest,
            Settings { out: Some(value), ..s },
        ),
        settings_of(seq!["--database-url"@, value] + rest, s) == settings_of(
            rest,
            Settings { database_url: Some(value), ..s },
        ),
{
    lemma_words();
    lemma_second("--list"@, value, rest);
    lemma_second("--schema"@, value, rest);
    lemma_second("--key"@, value, rest);
    lemma_second("--enum-max"@, value, rest);
    lemma_second("--null-token"@, value, rest);
    lemma_second("-o"@, value, rest);
    lemma_second("--out"@, value, rest);
    lemma_second("--database-url"@, value, rest);
}

proof fn lemma_second(flag: Seq<char>, value: Seq<char>, rest: Seq<Seq<char>>)
    ensures
        (seq![flag, value] + rest).skip(2) == rest,
        (seq![flag, value] + rest)[0] == flag,
        (seq![flag, value] + rest)[1] == value,
        (seq![flag, value] + rest).len() >= 2,
{
    assert((seq![flag, value] + rest).skip(2) =~= rest);
}

/// The switches, which take no value.
pub proof fn lemma_switches(s: Settings, rest: Seq<Seq<char>>)
    ensures
        settings_of(seq!["--lenient"@] + rest, s) == settings_of(
            rest,
            Settings { strict: false, ..s },
        ),
        settings_of(seq!["--create-schema"@] + rest, s) == settings_of(
            rest,
            Settings { create_schema: true, ..s },
        ),
        settings_of(seq!["--with-checks"@] + rest, s) == settings_of(
            rest,
            Settings { with_checks: true, ..s },
        ),
        settings_of(seq!["-h"@] + rest, s) == Err::<Settings, Fault>(Fault::Usage(USAGE@)),
        settings_of(seq!["--help"@] + rest, s) == Err::<Settings, Fault>(Fault::Usage(USAGE@)),
{
    lemma_words();
    assert((seq!["--lenient"@] + rest).skip(1) =~= rest);
    assert((seq!["--create-schema"@] + rest).skip(1) =~= rest);
    assert((seq!["--with-checks"@] + rest).skip(1) =~= rest);
}

/// An option that needs a value and has none is refused by its long name, and
/// a word that is no option is refused.
pub proof fn lemma_bad_options(s: Settings, word: Seq<char>, rest: Seq<Seq<char>>)
    ensures
        settings_of(seq!["--list"@], s) == Err::<Settings, Fault>(
            Fault::Usage("--list"@ + " expects a value"@),
        ),
        settings_of(seq!["--schema"@], s) == Err::<Settings, Fault>(
            Fault::Usage("--schema"@ + " expects a value"@),
        ),
        settings_of(seq!["--key"@], s) == Err::<Settings, Fault>(
            Fault::Usage("--key"@ + " expects a value"@),
        ),
        settings_of(seq!["--enum-max"@], s) == Err::<Settings, Fault>(
            Fault::Usage("--enum-max"@ + " expects a value"@),
        ),
        settings_of(seq!["--null-token"@], s) == Err::<Settings, Fault>(
            Fault::Usage("--null-token"@ + " expects a value"@),
        ),
        settings_of(seq!["-o"@], s) == Err::<Settings, Fault>(
            Fault::Usage("--out"@ + " expects a value"@),
        ),
        settings_of(seq!["--out"@], s) == Err::<Settings, Fault>(
            Fault::Usage("--out"@ + " expects a value"@),
        ),
        settings_of(seq!["--database-url"@], s) == Err::<Settings, Fault>(
            Fault::Usage("--database-url"@ + " expects a value"@),
        ),
        word != "--list"@ && word != "--schema"@ && word != "--key"@ && word != "--enum-max"@ && word
            != "--null-token"@ && word != "--lenient"@ && word != "-o"@ && word != "--out"@ && word
            != "--database-url"@ && word != "--create-schema"@ && word != "--with-checks"@ && word
            != "-h"@ && word != "--help"@ ==> settings_of(seq![word] + rest, s) == Err::<
            Settings,
            Fault,
        >(Fault::Usage("unknown option `"@ + word + "`\n\n"@ + USAGE@)),
{
    lemma_words();
}

/// Without options the run is strict, on the schema `account`, with at most 32
/// values to an enum, and nothing else is set; the list must be given.
pub proof fn lemma_requests(words: Seq<Seq<char>>, word: Seq<char>)
    ensures
        defaults() == (Settings {
            list: None,
            schema: "account"@,
            key: None,
            enum_max: 32,
            null_tokens: seq![],
            strict: true,
            out: None,
            database_url: None,
            create_schema: false,
            with_checks: false,
        }),
        request_of(seq![]) == Err::<Request, Fault>(Fault::Usage(USAGE@)),
        match command_of(word) {
            Err(fault) => request_of(seq![word] + words) == Err::<Request, Fault>(fault),
            Ok(command) => match settings_of(words, defaults()) {
                Err(fault) => request_of(seq![word] + words) == Err::<Request, Fault>(fault),
                Ok(settings) => match settings.list {
                    Some(list) => request_of(seq![word] + words) == Ok::<Request, Fault>(
                        Request { command, list, settings },
                    ),
                    None => request_of(seq![word] + words) == Err::<Request, Fault>(
                        Fault::Usage("--list is required\n\n"@ + USAGE@),
                    ),
                },
            },
        },
{
    assert((seq![word] + words).skip(1) =~= words);
}

/// A connection string that is given is used, whatever the environment says;
/// that of the environment is used otherwise; and an empty one is none.
pub proof fn lemma_urls(given: Seq<char>, env: Option<Seq<char>>)
    ensures
        given.len() > 0 ==> url_of(Some(given), env) == Ok::<Seq<char>, Fault>(given),
        given.len() > 0 ==> url_of(None, Some(given)) == Ok::<Seq<char>, Fault>(given),
        url_of(Some(seq![]), env) == Err::<Seq<char>, Fault>(Fault::MissingEnv("DATABASE_URL"@)),
        url_of(None, Some(seq![])) == Err::<Seq<char>, Fault>(Fault::MissingEnv("DATABASE_URL"@)),
        url_of(None, None) == Err::<Seq<char>, Fault>(Fault::MissingEnv("DATABASE_URL"@)),
{
}

} // verus!
