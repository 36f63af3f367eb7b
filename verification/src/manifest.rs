//! The plain-text list of CSVs to process, in order.
//!
//! Each non-blank, non-`#` line is `PATH [WHEN]`:
//! - `PATH` is a CSV path (no embedded spaces), resolved relative to the
//!   manifest's own directory when not absolute.
//! - `WHEN` is an optional observation instant - a `YYYY-MM-DD` date or a full
//!   timestamp - that becomes the lower bound of the temporal range for
//!   everything loaded from that file.
//!
//! If `WHEN` is omitted we try to lift a `YYYY-MM` / `YYYY-MM-DD` out of the
//! path. If no line carries a usable date at all, we fall back to synthetic
//! consecutive months (2000-01, 2000-02, ...) so that a bare list of paths
//! still loads with monotonic, non-overlapping ranges.

use crate::error::{Error, Fault, Result};
use crate::ident;
use crate::location;
use crate::number;
use crate::order;
use crate::profile;
use crate::scalar;
use crate::text;
use vstd::prelude::*;

verus! {

/// One file to process, with its resolved path, its path as the manifest
/// spells it (kept verbatim as load provenance), and the observation instant
/// as a string ready to cast to `timestamptz`.
pub struct Entry {
    pub path: String,
    pub source: String,
    pub at: String,
}

/// What an [`Entry`] says.
#[verifier::ext_equal]
pub struct Listed {
    pub path: Seq<char>,
    pub source: Seq<char>,
    pub at: Seq<char>,
}

impl View for Entry {
    type V = Listed;

    open spec fn view(&self) -> Listed {
        Listed { path: self.path@, source: self.source@, at: self.at@ }
    }
}

pub open spec fn entries_view(v: Seq<Entry>) -> Seq<Listed> {
    Seq::new(v.len(), |i: int| v[i]@)
}

/// A manifest line, counted from one, before the date fallback is resolved:
/// `at` is `None` when neither an explicit field nor the path supplied one.
struct Raw {
    line: usize,
    source: String,
    at: Option<String>,
}

/// What a listed line says before the date fallback is resolved.
#[verifier::ext_equal]
pub struct Undated {
    pub line: nat,
    pub source: Seq<char>,
    pub at: Option<Seq<char>>,
}

/// A `YYYY-MM-DD`, alone or at the front of something with a colon in it.
pub open spec fn instant(s: Seq<char>) -> bool {
    scalar::ymd(s) || (s.len() > 10 && scalar::ymd(s.take(10)) && s.contains(':'))
}

/// Whether a text can serve as an observation instant.
pub fn is_instant(s: &str) -> (out: bool)
    ensures
        out == instant(s@),
{
    let chars = text::chars_of(s);
    proof {
        if chars@.len() >= 10 {
            assert(s@.take(10) =~= s@.subrange(0, 10));
        }
        if chars@.len() == 10 {
            assert(s@.take(10) =~= s@);
        }
        assert(s@.skip(0) =~= s@);
    }
    scalar::ymd_at(chars.as_slice(), 0) && (chars.len() == 10 || scalar::has_char(
        chars.as_slice(),
        0,
        ':',
    ))
}

/// Whether a `YYYY-MM` stands at a position.
pub open spec fn month_at(s: Seq<char>, i: int) -> bool {
    &&& 0 <= i && i + 7 <= s.len()
    &&& s[i + 4] == '-'
    &&& forall|k: int| 0 <= k < 7 && k != 4 ==> text::is_digit(#[trigger] s[i + k])
}

/// Whether a `-DD` stands at a position.
pub open spec fn day_at(s: Seq<char>, i: int) -> bool {
    0 <= i && i + 3 <= s.len() && s[i] == '-' && text::is_digit(s[i + 1]) && text::is_digit(
        s[i + 2],
    )
}

/// The date of the first `YYYY-MM` at or behind a position, with the day that
/// follows it or else the first of the month.
pub open spec fn date_from(s: Seq<char>, i: int) -> Option<Seq<char>>
    decreases s.len() - i,
{
    if i + 7 > s.len() {
        None
    } else if month_at(s, i) {
        Some(
            if day_at(s, i + 7) {
                s.subrange(i, i + 10)
            } else {
                s.subrange(i, i + 7) + "-01"@
            },
        )
    } else {
        date_from(s, i + 1)
    }
}

/// Whether a `YYYY-MM` stands at a position.
fn has_month(chars: &[char], i: usize) -> (out: bool)
    requires
        i + 7 <= chars@.len(),
    ensures
        out == month_at(chars@, i as int),
{
    let len = chars.len();
    if chars[i + 4] != '-' {
        return false;
    }
    for k in 0..7usize
        invariant
            i + 7 <= len == chars@.len(),
            forall|j: int| 0 <= j < k && j != 4 ==> text::is_digit(#[trigger] chars@[i + j]),
    {
        if k != 4 && !text::digit(chars[i + k]) {
            assert(!text::is_digit(chars@[i as int + k as int]));
            return false;
        }
    }
    true
}

/// Pull the first `YYYY-MM` or `YYYY-MM-DD` out of a path. A bare `YYYY-MM`
/// becomes the first of that month.
pub fn date_from_path(source: &str) -> (out: Option<String>)
    ensures
        profile::text_opt(out) == date_from(source@, 0),
{
    let chars = text::chars_of(source);
    let n = chars.len();
    let mut i: usize = 0;
    while n >= 7 && i <= n - 7
        invariant
            n == chars@.len(),
            chars@ == source@,
            i <= n,
            date_from(source@, 0) == date_from(source@, i as int),
        decreases n - i,
    {
        if has_month(chars.as_slice(), i) {
            let has_day = n - i >= 10 && chars[i + 7] == '-' && text::digit(chars[i + 8])
                && text::digit(chars[i + 9]);
            return Some(
                if has_day {
                    text::slice_text(chars.as_slice(), i, i + 10)
                } else {
                    let mut date = text::slice_text(chars.as_slice(), i, i + 7);
                    date.append("-01");
                    date
                },
            );
        }
        i += 1;
    }
    None
}

/// The year and month that stand for a place in the list: one month after the
/// other from January 2000 on.
pub open spec fn place_month(index: nat) -> (nat, nat) {
    (2000 + index / 12, 1 + index % 12)
}

/// A number with two digits at least.
pub open spec fn two(n: nat) -> Seq<char> {
    if n < 10 {
        "0"@ + text::decimal(n)
    } else {
        text::decimal(n)
    }
}

/// The first day of the month that stands for a place in the list.
pub open spec fn synthetic(index: nat) -> Seq<char> {
    text::decimal(place_month(index).0) + "-"@ + two(place_month(index).1) + "-01"@
}

/// `2000-01-01`, `2000-02-01`, ... one month apart, in list order.
pub fn synthetic_month(index: usize) -> (out: String)
    ensures
        out@ == synthetic(index as nat),
{
    let year: usize = 2000 + index / 12;
    let month: usize = 1 + index % 12;
    let mut out = text::decimal_text(year as u128);
    out.append("-");
    let digits = text::decimal_text(month as u128);
    if month < 10 {
        let mut padded = "0".to_owned();
        padded.append(digits.as_str());
        out.append(padded.as_str());
    } else {
        out.append(digits.as_str());
    }
    out.append("-01");
    out
}

/// The lines of a text, in order. The text behind the last line feed is a
/// line too.
pub open spec fn lines_of(s: Seq<char>) -> Seq<Seq<char>>
    decreases s.len(),
{
    if s.len() == 0 {
        seq![seq![]]
    } else {
        let front = lines_of(s.drop_last());
        if s.last() == '\n' {
            front.push(seq![])
        } else {
            front.drop_last().push(front.last().push(s.last()))
        }
    }
}

/// Where the first white space of a text stands, or its end.
pub open spec fn word_end(s: Seq<char>) -> int
    decreases s.len(),
{
    if s.len() == 0 || text::is_space(s[0]) {
        0
    } else {
        1 + word_end(s.drop_first())
    }
}

/// The path and the instant that a line lists; nothing, where the line is
/// blank or a comment.
pub open spec fn fields(line: Seq<char>) -> Option<(Seq<char>, Option<Seq<char>>)> {
    let t = text::trimmed(line);
    if t.len() == 0 || t[0] == '#' {
        None
    } else {
        let rest = text::trimmed(t.skip(word_end(t)));
        Some(
            (
                t.take(word_end(t)),
                if rest.len() == 0 {
                    None
                } else {
                    Some(rest)
                },
            ),
        )
    }
}

/// What is wrong with an instant that is none.
pub open spec fn bad_instant(list: Seq<char>, line: nat, when: Seq<char>) -> Fault {
    Fault::Manifest {
        path: list,
        line: line as int,
        message: "`"@ + when + "` is not a YYYY-MM-DD date or timestamp"@,
    }
}

/// What the lines list, or what is wrong with the first bad one.
pub open spec fn listed(list: Seq<char>, lines: Seq<Seq<char>>) -> std::result::Result<
    Seq<Undated>,
    Fault,
>
    decreases lines.len(),
{
    if lines.len() == 0 {
        Ok(seq![])
    } else {
        match listed(list, lines.drop_last()) {
            Ok(before) => match fields(lines.last()) {
                None => Ok(before),
                Some((source, Some(when))) => if instant(when) {
                    Ok(before.push(Undated { line: lines.len(), source, at: Some(when) }))
                } else {
                    Err(bad_instant(list, lines.len(), when))
                },
                Some((source, None)) => Ok(
                    before.push(Undated { line: lines.len(), source, at: date_from(source, 0) }),
                ),
            },
            Err(fault) => Err(fault),
        }
    }
}

/// Whether any of the lines is dated.
pub open spec fn any_dated(raws: Seq<Undated>) -> bool {
    exists|i: int| 0 <= i < raws.len() && (#[trigger] raws[i]).at is Some
}

/// How many lines come before the first that is not dated.
pub open spec fn dated_front(raws: Seq<Undated>) -> int
    decreases raws.len(),
{
    if raws.len() > 0 && raws[0].at is Some {
        1 + dated_front(raws.drop_first())
    } else {
        0
    }
}

/// What is wrong with a line that lacks a date where others have one.
pub open spec fn no_date(list: Seq<char>, line: nat, source: Seq<char>) -> Fault {
    Fault::Manifest {
        path: list,
        line: line as int,
        message: "no date for `"@ + source
            + "` (other lines have dates, so this one needs one too)"@,
    }
}

/// The entry of a listed line, with its instant.
pub open spec fn entry_of(list: Seq<char>, source: Seq<char>, at: Seq<char>) -> Listed {
    Listed { path: location::resolved_path(location::directory_path(list), source), source, at }
}

/// The entries of the listed lines. If nobody supplied a date, consecutive
/// months are synthesized; otherwise every line must have one.
pub open spec fn resolved(list: Seq<char>, raws: Seq<Undated>) -> std::result::Result<
    Seq<Listed>,
    Fault,
> {
    if raws.len() == 0 {
        Err(Fault::Manifest { path: list, line: 0, message: "manifest lists no files"@ })
    } else if !any_dated(raws) {
        Ok(Seq::new(raws.len(), |i: int| entry_of(list, raws[i].source, synthetic(i as nat))))
    } else {
        let n = dated_front(raws);
        if n < raws.len() {
            Err(no_date(list, raws[n].line, raws[n].source))
        } else {
            Ok(Seq::new(raws.len(), |i: int| entry_of(list, raws[i].source, raws[i].at->0)))
        }
    }
}

/// The entries of a manifest, by its path and its text, or what is wrong with
/// it.
pub open spec fn parsed(list: Seq<char>, s: Seq<char>) -> std::result::Result<Seq<Listed>, Fault> {
    match listed(list, lines_of(s)) {
        Ok(raws) => resolved(list, raws),
        Err(fault) => Err(fault),
    }
}

spec fn chars_view(lines: Seq<Vec<char>>) -> Seq<Seq<char>> {
    Seq::new(lines.len(), |i: int| lines[i]@)
}

/// Cut a text into its lines.
fn split_lines(s: &str) -> (out: Vec<Vec<char>>)
    ensures
        chars_view(out@) == lines_of(s@),
{
    let mut done: Vec<Vec<char>> = Vec::new();
    let mut cur: Vec<char> = Vec::new();
    assert(chars_view(done@).push(cur@) =~= lines_of(s@.take(0)));
    for c in it: s.chars()
        invariant
            it.seq() == s@,
            chars_view(done@).push(cur@) == lines_of(s@.take(it.index())),
    {
        proof {
            assert(s@.take(it.index() + 1).drop_last() =~= s@.take(it.index()));
            assert(s@.take(it.index() + 1).last() == c);
            assert(chars_view(done@).push(cur@).drop_last() =~= chars_view(done@));
        }
        let ghost was = done@;
        let ghost line = cur@;
        if c == '\n' {
            done.push(cur);
            cur = Vec::new();
            assert(chars_view(done@) =~= chars_view(was).push(line));
            assert(cur@ =~= seq![]);
        } else {
            cur.push(c);
        }
    }
    assert(s@.take(s@.len() as int) =~= s@);
    let ghost was = done@;
    let ghost line = cur@;
    done.push(cur);
    assert(chars_view(done@) =~= chars_view(was).push(line));
    done
}

/// The span of a text without the white space at either end.
fn trim_span(chars: &[char], from: usize, to: usize) -> (out: (usize, usize))
    requires
        from <= to <= chars@.len(),
    ensures
        from <= out.0 <= out.1 <= to,
        chars@.subrange(out.0 as int, out.1 as int) == text::trimmed(
            chars@.subrange(from as int, to as int),
        ),
{
    let ghost s = chars@.subrange(from as int, to as int);
    let mut end = to;
    while end > from && text::space(chars[end - 1])
        invariant
            from <= end <= to <= chars@.len(),
            s == chars@.subrange(from as int, to as int),
            text::text_end(s) == text::text_end(chars@.subrange(from as int, end as int)),
        decreases end,
    {
        assert(chars@.subrange(from as int, end as int).drop_last() =~= chars@.subrange(
            from as int,
            end - 1,
        ));
        end = end - 1;
    }
    let ghost t = chars@.subrange(from as int, end as int);
    assert(text::text_end(s) == t.len());
    assert(s.take(text::text_end(s)) =~= t);
    let mut start = from;
    while start < end && text::space(chars[start])
        invariant
            from <= start <= end <= chars@.len(),
            t == chars@.subrange(from as int, end as int),
            text::space_end(t) == start - from + text::space_end(
                chars@.subrange(start as int, end as int),
            ),
        decreases end - start,
    {
        assert(chars@.subrange(start as int, end as int).drop_first() =~= chars@.subrange(
            start + 1,
            end as int,
        ));
        start = start + 1;
    }
    assert(text::space_end(t) == start - from);
    assert(t.skip(start - from) =~= chars@.subrange(start as int, end as int));
    (start, end)
}

/// The path and the instant that a line lists.
fn line_fields(line: &[char]) -> (out: Option<(String, Option<String>)>)
    ensures
        match out {
            Some((source, when)) => fields(line@) == Some((source@, profile::text_opt(when))),
            None => fields(line@) is None,
        },
{
    let n = line.len();
    let (start, end) = trim_span(line, 0, n);
    let ghost t = line@.subrange(start as int, end as int);
    assert(line@.subrange(0, n as int) =~= line@);
    if start == end || line[start] == '#' {
        return None;
    }
    let mut stop = start;
    assert(t.skip(0) =~= t);
    while stop < end && !text::space(line[stop])
        invariant
            start <= stop <= end <= line@.len(),
            t == line@.subrange(start as int, end as int),
            word_end(t) == stop - start + word_end(line@.subrange(stop as int, end as int)),
        decreases end - stop,
    {
        assert(line@.subrange(stop as int, end as int).drop_first() =~= line@.subrange(
            stop + 1,
            end as int,
        ));
        stop += 1;
    }
    let source = text::slice_text(line, start, stop);
    let (from, to) = trim_span(line, stop, end);
    proof {
        assert(word_end(t) == stop - start);
        assert(t.take(word_end(t)) =~= line@.subrange(start as int, stop as int));
        assert(t.skip(word_end(t)) =~= line@.subrange(stop as int, end as int));
    }
    if from == to {
        Some((source, None))
    } else {
        Some((source, Some(text::slice_text(line, from, to))))
    }
}

spec fn raws_view(v: Seq<Raw>) -> Seq<Undated> {
    Seq::new(
        v.len(),
        |i: int|
            Undated {
                line: v[i].line as nat,
                source: v[i].source@,
                at: profile::text_opt(v[i].at),
            },
    )
}

proof fn lemma_listed_prefix(list: Seq<char>, lines: Seq<Seq<char>>, n: int)
    requires
        0 <= n <= lines.len(),
        listed(list, lines.take(n)) is Err,
    ensures
        listed(list, lines) == listed(list, lines.take(n)),
    decreases lines.len() - n,
{
    if n < lines.len() {
        assert(lines.take(n + 1).drop_last() =~= lines.take(n));
        lemma_listed_prefix(list, lines, n + 1);
    } else {
        assert(lines.take(n) =~= lines);
    }
}

/// What the lines of a manifest list.
fn read_lines(list: &str, lines: &Vec<Vec<char>>) -> (out: Result<Vec<Raw>>)
    ensures
        match out {
            Ok(raws) => listed(list@, chars_view(lines@)) == Ok::<Seq<Undated>, Fault>(
                raws_view(raws@),
            ),
            Err(e) => listed(list@, chars_view(lines@)) == Err::<Seq<Undated>, Fault>(e@),
        },
{
    let ghost all = chars_view(lines@);
    let mut raws: Vec<Raw> = Vec::new();
    assert(raws_view(raws@) =~= seq![]);
    for i in 0..lines.len()
        invariant
            all == chars_view(lines@),
            listed(list@, all.take(i as int)) == Ok::<Seq<Undated>, Fault>(raws_view(raws@)),
    {
        proof {
            assert(all.take(i + 1).drop_last() =~= all.take(i as int));
            assert(all.take(i + 1).last() == lines@[i as int]@);
        }
        if let Some((source, when)) = line_fields(lines[i].as_slice()) {
            let at = match when {
                Some(w) => {
                    if !is_instant(w.as_str()) {
                        proof {
                            lemma_listed_prefix(list@, all, i + 1);
                        }
                        let mut message = "`".to_owned();
                        message.append(w.as_str());
                        message.append("` is not a YYYY-MM-DD date or timestamp");
                        return Err(
                            Error::Manifest { path: list.to_owned(), line: i + 1, message },
                        );
                    }
                    Some(w)
                },
                None => date_from_path(source.as_str()),
            };
            let ghost was = raws@;
            let ghost raw = Undated {
                line: (i + 1) as nat,
                source: source@,
                at: profile::text_opt(at),
            };
            raws.push(Raw { line: i + 1, source, at });
            assert(raws_view(raws@) =~= raws_view(was).push(raw));
        }
    }
    assert(all.take(all.len() as int) =~= all);
    Ok(raws)
}

proof fn lemma_dated_front(raws: Seq<Undated>, n: int)
    requires
        0 <= n <= raws.len(),
        forall|i: int| 0 <= i < n ==> (#[trigger] raws[i]).at is Some,
        n < raws.len() ==> raws[n].at is None,
    ensures
        dated_front(raws) == n,
    decreases n,
{
    if n > 0 {
        assert(raws[0].at is Some);
        let rest = raws.drop_first();
        assert forall|i: int| 0 <= i < n - 1 implies (#[trigger] rest[i]).at is Some by {
            assert(rest[i] == raws[i + 1]);
        }
        lemma_dated_front(rest, n - 1);
    }
}

/// Whether any of the lines is dated.
fn some_dated(raws: &Vec<Raw>) -> (out: bool)
    ensures
        out == any_dated(raws_view(raws@)),
{
    let ghost all = raws_view(raws@);
    for i in 0..raws.len()
        invariant
            all == raws_view(raws@),
            forall|j: int| 0 <= j < i ==> (#[trigger] all[j]).at is None,
    {
        if raws[i].at.is_some() {
            assert(all[i as int].at is Some);
            return true;
        }
    }
    false
}

/// The entries of a manifest, by its path and its text.
pub fn parse(list_path: &str, text: &str) -> (out: Result<Vec<Entry>>)
    ensures
        match out {
            Ok(entries) => parsed(list_path@, text@) == Ok::<Seq<Listed>, Fault>(
                entries_view(entries@),
            ),
            Err(e) => parsed(list_path@, text@) == Err::<Seq<Listed>, Fault>(e@),
        },
{
    let lines = split_lines(text);
    let raws = match read_lines(list_path, &lines) {
        Ok(raws) => raws,
        Err(e) => {
            return Err(e);
        },
    };
    if raws.len() == 0 {
        let message = "manifest lists no files".to_owned();
        return Err(Error::Manifest { path: list_path.to_owned(), line: 0, message });
    }
    let base = location::directory(list_path);
    let ghost all = raws_view(raws@);
    let dated = some_dated(&raws);
    let mut entries: Vec<Entry> = Vec::new();
    for i in 0..raws.len()
        invariant
            all == raws_view(raws@),
            all.len() > 0,
            base@ == location::directory_path(list_path@),
            listed(list_path@, lines_of(text@)) == Ok::<Seq<Undated>, Fault>(all),
            dated == any_dated(all),
            entries@.len() == i,
            dated ==> forall|j: int| 0 <= j < i ==> (#[trigger] all[j]).at is Some,
            forall|j: int|
                0 <= j < i ==> (#[trigger] entries@[j])@ == entry_of(
                    list_path@,
                    all[j].source,
                    if dated {
                        all[j].at->0
                    } else {
                        synthetic(j as nat)
                    },
                ),
    {
        let raw = &raws[i];
        assert(all[i as int].source == raw.source@);
        assert(all[i as int].at == profile::text_opt(raw.at));
        let at = match &raw.at {
            Some(a) => {
                assert(all[i as int].at is Some);
                a.clone()
            },
            None => {
                if dated {
                    proof {
                        lemma_dated_front(all, i as int);
                    }
                    let mut message = "no date for `".to_owned();
                    message.append(raw.source.as_str());
                    message.append("` (other lines have dates, so this one needs one too)");
                    return Err(
                        Error::Manifest { path: list_path.to_owned(), line: raw.line, message },
                    );
                }
                synthetic_month(i)
            },
        };
        let path = location::resolve(base.as_str(), raw.source.as_str());
        entries.push(Entry { path, source: raw.source.clone(), at });
    }
    proof {
        if dated {
            lemma_dated_front(all, all.len() as int);
        }
        assert(entries_view(entries@) =~= resolved(list_path@, all)->Ok_0);
    }
    Ok(entries)
}

/// The synthetic months are consecutive: each is one month after the one
/// before it in the list, and no two are the same.
pub proof fn lemma_synthetic_months_consecutive(i: nat, j: nat)
    ensures
        1 <= place_month(i).1 <= 12,
        12 * place_month(i + 1).0 + place_month(i + 1).1 == 12 * place_month(i).0 + place_month(
            i,
        ).1 + 1,
        synthetic(i) == synthetic(j) ==> i == j,
{
    if synthetic(i) == synthetic(j) {
        reveal_strlit("-");
        reveal_strlit("-01");
        reveal_strlit("0");
        let (y, m) = place_month(i);
        let (z, n) = place_month(j);
        lemma_two(m);
        lemma_two(n);
        let a = text::decimal(y);
        let b = text::decimal(z);
        let at = a.len() as int;
        assert(a.len() + 6 == synthetic(i).len());
        assert(b.len() + 6 == synthetic(j).len());
        assert(a =~= synthetic(i).take(at));
        assert(b =~= synthetic(j).take(at));
        assert(two(m) =~= synthetic(i).subrange(at + 1, at + 3));
        assert(two(n) =~= synthetic(j).subrange(at + 1, at + 3));
        ident::lemma_decimal_digits(y);
        ident::lemma_decimal_digits(z);
        assert(y == z && m == n);
    }
}

proof fn lemma_two(n: nat)
    requires
        n < 100,
    ensures
        two(n).len() == 2,
        number::all_digits(two(n)),
        number::digits_value(two(n)) == n,
{
    reveal_strlit("0");
    ident::lemma_decimal_digits(n);
    let d = text::decimal(n);
    if n < 10 {
        let t = two(n);
        assert(t.drop_last() =~= seq!['0']);
        assert(t.drop_last().drop_last().len() == 0);
        assert(number::digits_value(t.drop_last().drop_last()) == 0);
        assert(number::digits_value(t.drop_last()) == 0);
        assert(t.last() == d.last());
        assert(d.drop_last().len() == 0);
        assert(number::digits_value(d.drop_last()) == 0);
    } else {
        assert(text::decimal(n / 10).len() == 1);
    }
}

/// Up to the year 9999 the synthetic months are dates, and they ascend as
/// texts in list order.
pub proof fn lemma_synthetic_months_ascend(i: nat, j: nat)
    requires
        i < j,
        j < 12 * 8000,
    ensures
        order::precedes(synthetic(i), synthetic(j)),
        scalar::date(synthetic(i)) && instant(synthetic(i)),
        scalar::date(synthetic(j)) && instant(synthetic(j)),
        synthetic(i).skip(7) == "-01"@,
        synthetic(j).skip(7) == "-01"@,
{
    reveal_strlit("-");
    reveal_strlit("-01");
    lemma_synthetic_instant(i);
    lemma_synthetic_instant(j);
    let (y, m) = place_month(i);
    let (z, n) = place_month(j);
    lemma_two(m);
    lemma_two(n);
    ident::lemma_decimal_digits(y);
    ident::lemma_decimal_digits(z);
    let a = synthetic(i);
    let b = synthetic(j);
    let p = text::decimal(y);
    let q = text::decimal(z);
    lemma_four_digits(y);
    lemma_four_digits(z);
    assert(a.skip(7) =~= "-01"@);
    assert(b.skip(7) =~= "-01"@);
    if y < z {
        let k = number::lemma_lesser_digit(p, q);
        assert(a.take(k) =~= p.take(k));
        assert(b.take(k) =~= q.take(k));
        assert(a[k] == p[k] && b[k] == q[k]);
        order::lemma_precedes_at(a, b, k);
    } else {
        assert(y == z && m < n);
        let k = number::lemma_lesser_digit(two(m), two(n));
        assert(a.take(5 + k) =~= p + "-"@ + two(m).take(k));
        assert(b.take(5 + k) =~= p + "-"@ + two(n).take(k));
        assert(a[5 + k] == two(m)[k] && b[5 + k] == two(n)[k]);
        order::lemma_precedes_at(a, b, 5 + k);
    }
}

proof fn lemma_four_digits(y: nat)
    requires
        1000 <= y < 10000,
    ensures
        text::decimal(y).len() == 4,
{
    reveal_with_fuel(text::decimal, 5);
}

/// Every entry is dated: its instant is a `YYYY-MM-DD` or a timestamp. The
/// synthetic months are left out from the year 10000 on, which takes five
/// digits.
pub proof fn lemma_every_entry_dated(list: Seq<char>, s: Seq<char>, i: int)
    requires
        i < 12 * 8000 || (listed(list, lines_of(s)) matches Ok(raws) ==> any_dated(raws)),
    ensures
        parsed(list, s) matches Ok(entries) ==> (0 <= i < entries.len() ==> instant(entries[i].at)),
{
    if let Ok(entries) = parsed(list, s) {
        let raws = listed(list, lines_of(s))->Ok_0;
        lemma_listed_instants(list, lines_of(s), i);
        if 0 <= i < entries.len() {
            if any_dated(raws) {
                lemma_dated_all(raws, i);
            } else {
                lemma_synthetic_instant(i as nat);
            }
        }
    }
}

proof fn lemma_dated_all(raws: Seq<Undated>, i: int)
    requires
        0 <= i < dated_front(raws),
    ensures
        i < raws.len(),
        raws[i].at is Some,
    decreases raws.len(),
{
    if i > 0 {
        lemma_dated_all(raws.drop_first(), i - 1);
    }
}

proof fn lemma_synthetic_instant(index: nat)
    requires
        index < 12 * 8000,
    ensures
        scalar::date(synthetic(index)),
{
    reveal_strlit("-");
    reveal_strlit("-01");
    let (y, m) = place_month(index);
    lemma_two(m);
    ident::lemma_decimal_digits(y);
    let a = text::decimal(y);
    lemma_four_digits(y);
    let s = synthetic(index);
    let t = two(m);
    assert forall|i: int| 0 <= i < 10 && i != 4 && i != 7 implies text::is_digit(
        #[trigger] s[i],
    ) by {
        if i < 4 {
            assert(s[i] == a[i]);
        } else if i < 7 {
            assert(s[i] == t[i - 5]);
        }
    }
    assert(s[5] == t[0] && s[6] == t[1]);
    assert(t.drop_last() =~= seq![t[0]]);
    assert(t.drop_last().drop_last().len() == 0);
    assert(number::digits_value(t.drop_last().drop_last()) == 0);
    assert(text::is_digit(t[0]) && text::is_digit(t[1]));
    assert(number::digits_value(t.drop_last()) == (t[0] as nat - 48) as nat);
    assert(t.last() == t[1]);
    assert(number::digits_value(t) == scalar::two_digits(t[0], t[1]));
}

/// A date that is lifted out of a path has the shape of a date.
proof fn lemma_path_date_shape(s: Seq<char>, i: int)
    requires
        0 <= i,
    ensures
        date_from(s, i) matches Some(date) ==> scalar::ymd(date),
    decreases s.len() - i,
{
    if i + 7 <= s.len() {
        if month_at(s, i) {
            reveal_strlit("-01");
            let date = date_from(s, i)->0;
            assert forall|k: int| 0 <= k < 10 && k != 4 && k != 7 implies text::is_digit(
                #[trigger] date[k],
            ) by {
                if k < 7 {
                    assert(date[k] == s[i + k]);
                }
            }
            assert(date[4] == s[i + 4]);
        } else {
            lemma_path_date_shape(s, i + 1);
        }
    }
}

/// What the lines list is dated by instants only.
proof fn lemma_listed_instants(list: Seq<char>, lines: Seq<Seq<char>>, k: int)
    ensures
        listed(list, lines) matches Ok(raws) ==> (0 <= k < raws.len() ==> (raws[k].at matches Some(at)
            ==> instant(at))),
    decreases lines.len(),
{
    if lines.len() > 0 {
        lemma_listed_instants(list, lines.drop_last(), k);
        if let Some((source, when)) = fields(lines.last()) {
            lemma_path_date_shape(source, 0);
        }
    }
}

/// The paths that the lines list, in order; blank lines and comments list
/// none.
pub open spec fn paths(lines: Seq<Seq<char>>) -> Seq<Seq<char>>
    decreases lines.len(),
{
    if lines.len() == 0 {
        seq![]
    } else {
        match fields(lines.last()) {
            Some((source, _)) => paths(lines.drop_last()).push(source),
            None => paths(lines.drop_last()),
        }
    }
}

/// The entries are the listed paths in their order, none left out and none
/// added, and each is to be found where its path says: itself if absolute,
/// else below the manifest's directory.
pub proof fn lemma_entries_in_order(list: Seq<char>, s: Seq<char>)
    ensures
        parsed(list, s) matches Ok(entries) ==> {
            &&& Seq::new(entries.len(), |i: int| entries[i].source) == paths(lines_of(s))
            &&& forall|i: int|
                0 <= i < entries.len() ==> (#[trigger] entries[i]).path
                    == location::resolved_path(location::directory_path(list), entries[i].source)
        },
{
    lemma_listed_paths(list, lines_of(s));
    if let Ok(entries) = parsed(list, s) {
        assert(Seq::new(entries.len(), |i: int| entries[i].source) =~= paths(lines_of(s)));
    }
}

proof fn lemma_listed_paths(list: Seq<char>, lines: Seq<Seq<char>>)
    ensures
        listed(list, lines) matches Ok(raws) ==> Seq::new(raws.len(), |i: int| raws[i].source)
            == paths(lines),
    decreases lines.len(),
{
    if lines.len() > 0 {
        lemma_listed_paths(list, lines.drop_last());
        if let Ok(raws) = listed(list, lines) {
            assert(Seq::new(raws.len(), |i: int| raws[i].source) =~= paths(lines));
        }
    } else {
        assert(Seq::new(0, |i: int| listed(list, lines)->Ok_0[i].source) =~= paths(lines));
    }
}

/// Whether a line, counted from one, lists a file.
pub open spec fn lists_file(lines: Seq<Seq<char>>, line: int) -> bool {
    1 <= line <= lines.len() && fields(lines[line - 1]) is Some
}

/// A line that is at fault is reported by its number in the manifest, blank
/// lines and comments counted; the number is zero where no line lists a file.
pub proof fn lemma_fault_names_line(list: Seq<char>, s: Seq<char>)
    ensures
        parsed(list, s) matches Err(fault) ==> (fault matches Fault::Manifest { path, line, .. }
            && path == list && (lists_file(lines_of(s), line) || (line == 0 && paths(
            lines_of(s),
        ).len() == 0))),
{
    let lines = lines_of(s);
    lemma_listed_lines(list, lines);
    lemma_listed_paths(list, lines);
    if let Ok(raws) = listed(list, lines) {
        lemma_dated_front_bound(raws);
        if parsed(list, s) is Err && raws.len() > 0 {
            assert(lists_file(lines, raws[dated_front(raws)].line as int));
        } else if raws.len() == 0 {
            assert(paths(lines).len() == Seq::new(raws.len(), |i: int| raws[i].source).len());
        }
    }
}

proof fn lemma_dated_front_bound(raws: Seq<Undated>)
    ensures
        0 <= dated_front(raws) <= raws.len(),
    decreases raws.len(),
{
    if raws.len() > 0 && raws[0].at is Some {
        lemma_dated_front_bound(raws.drop_first());
    }
}

proof fn lemma_listed_lines(list: Seq<char>, lines: Seq<Seq<char>>)
    ensures
        match listed(list, lines) {
            Ok(raws) => forall|k: int|
                0 <= k < raws.len() ==> lists_file(lines, (#[trigger] raws[k]).line as int),
            Err(fault) => fault matches Fault::Manifest { path, line, .. } && path == list
                && lists_file(lines, line),
        },
    decreases lines.len(),
{
    if lines.len() > 0 {
        let p = lines.drop_last();
        lemma_listed_lines(list, p);
        match listed(list, lines) {
            Ok(raws) => {
                let before = listed(list, p)->Ok_0;
                assert forall|k: int| 0 <= k < raws.len() implies lists_file(
                    lines,
                    (#[trigger] raws[k]).line as int,
                ) by {
                    if k < before.len() {
                        assert(raws[k] == before[k]);
                        assert(p[before[k].line - 1] == lines[before[k].line - 1]);
                    }
                }
            },
            Err(fault) => {
                if listed(list, p) is Err {
                    assert(p[fault->Manifest_line - 1] == lines[fault->Manifest_line - 1]);
                }
            },
        }
    }
}

/// The lines of a text hold no line feed, and with line feeds between them
/// they are the text.
pub proof fn lemma_lines_of(s: Seq<char>)
    ensures
        text::joined(lines_of(s), seq!['\n']) == s,
        forall|i: int|
            0 <= i < lines_of(s).len() ==> !(#[trigger] lines_of(s)[i]).contains('\n'),
        lines_of(s).len() > 0,
    decreases s.len(),
{
    let all = lines_of(s);
    let sep = seq!['\n'];
    if s.len() == 0 {
        text::lemma_joined(seq![], seq![], sep);
        assert(text::joined(all, sep) =~= s);
    } else {
        let p = s.drop_last();
        let c = s.last();
        lemma_lines_of(p);
        let front = lines_of(p);
        assert(p.push(c) =~= s);
        if c == '\n' {
            text::lemma_joined(front, seq![], sep);
            assert(all == front.push(seq![]));
            assert(text::joined(all, sep) =~= s);
        } else {
            let head = front.drop_last();
            let tail = front.last();
            assert(front =~= head.push(tail));
            assert(all == head.push(tail.push(c)));
            text::lemma_joined(head, tail, sep);
            text::lemma_joined(head, tail.push(c), sep);
            if head.len() == 0 {
                assert(front =~= seq![tail]);
                assert(all =~= seq![tail.push(c)]);
                assert(text::joined(all, sep) =~= s);
            } else {
                assert(text::joined(all, sep) =~= text::joined(front, sep).push(c));
            }
            assert(!tail.push(c).contains('\n')) by {
                assert(!front[front.len() - 1].contains('\n'));
                if tail.push(c).contains('\n') {
                    let k = choose|k: int|
                        0 <= k < tail.push(c).len() && tail.push(c)[k] == '\n';
                    if k < tail.len() {
                        assert(tail[k] == '\n');
                    }
                }
            }
            assert forall|i: int| 0 <= i < all.len() implies !(#[trigger] all[i]).contains(
                '\n',
            ) by {
                if i < head.len() {
                    assert(all[i] == front[i]);
                }
            }
        }
    }
}

/// White space only.
pub open spec fn blank(s: Seq<char>) -> bool {
    forall|i: int| 0 <= i < s.len() ==> text::is_space(#[trigger] s[i])
}

/// A blank line lists nothing, and neither does one that begins with a `#`.
pub proof fn lemma_ignored_lines(pre: Seq<char>, rest: Seq<char>)
    requires
        blank(pre),
    ensures
        fields(pre) is None,
        fields(pre + seq!['#'] + rest) is None,
{
    text::lemma_trimmed(pre, seq![], seq![]);
    assert(pre + Seq::<char>::empty() + Seq::<char>::empty() =~= pre);
    let n = lemma_blank_tail(rest);
    let core = seq!['#'] + rest.take(n);
    if n > 0 {
        assert(core.last() == rest[n - 1]);
    }
    text::lemma_trimmed(pre, core, rest.skip(n));
    assert(pre + core + rest.skip(n) =~= pre + seq!['#'] + rest);
    assert(core[0] == '#');
}

proof fn lemma_blank_tail(s: Seq<char>) -> (n: int)
    ensures
        0 <= n <= s.len(),
        blank(s.skip(n)),
        n > 0 ==> !text::is_space(s[n - 1]),
    decreases s.len(),
{
    if s.len() == 0 || !text::is_space(s.last()) {
        s.len() as int
    } else {
        let p = s.drop_last();
        let n = lemma_blank_tail(p);
        assert forall|i: int| 0 <= i < s.skip(n).len() implies text::is_space(
            #[trigger] s.skip(n)[i],
        ) by {
            if i < p.len() - n {
                assert(p.skip(n)[i] == s.skip(n)[i]);
            }
        }
        n
    }
}

/// A line lists a path, which holds no white space, and behind white space an
/// instant, which may hold some inside; white space around them is of no
/// account.
pub proof fn lemma_listed_fields(
    pre: Seq<char>,
    source: Seq<char>,
    gap: Seq<char>,
    stamp: Seq<char>,
    post: Seq<char>,
)
    requires
        blank(pre),
        blank(gap),
        blank(post),
        source.len() > 0,
        source[0] != '#',
        forall|i: int| 0 <= i < source.len() ==> !text::is_space(#[trigger] source[i]),
        stamp.len() > 0 ==> gap.len() > 0 && !text::is_space(stamp[0]) && !text::is_space(
            stamp.last(),
        ),
    ensures
        fields(pre + source + gap + stamp + post) == Some(
            (
                source,
                if stamp.len() == 0 {
                    None
                } else {
                    Some(stamp)
                },
            ),
        ),
{
    let line = pre + source + gap + stamp + post;
    assert(!text::is_space(source[0]) && !text::is_space(source[source.len() - 1]));
    if stamp.len() == 0 {
        let tail = gap + post;
        text::lemma_trimmed(pre, source, tail);
        assert(pre + source + tail =~= line);
        lemma_word_end(source, seq![]);
        assert(source + Seq::<char>::empty() =~= source);
        assert(source.take(source.len() as int) =~= source);
        text::lemma_trimmed(seq![], seq![], seq![]);
        assert(source.skip(source.len() as int) =~= Seq::<char>::empty() + Seq::<char>::empty()
            + Seq::<char>::empty());
    } else {
        let core = source + gap + stamp;
        assert(core[0] == source[0]);
        assert(core.last() == stamp.last());
        text::lemma_trimmed(pre, core, post);
        assert(pre + core + post =~= line);
        lemma_word_end(source, gap + stamp);
        assert(source + (gap + stamp) =~= core);
        assert(core.take(source.len() as int) =~= source);
        text::lemma_trimmed(gap, stamp, seq![]);
        assert(core.skip(source.len() as int) =~= gap + stamp + Seq::<char>::empty());
    }
}

proof fn lemma_word_end(word: Seq<char>, rest: Seq<char>)
    requires
        forall|i: int| 0 <= i < word.len() ==> !text::is_space(#[trigger] word[i]),
        rest.len() > 0 ==> text::is_space(rest[0]),
    ensures
        word_end(word + rest) == word.len(),
    decreases word.len(),
{
    let s = word + rest;
    if word.len() > 0 {
        assert(s[0] == word[0]);
        assert(s.drop_first() =~= word.drop_first() + rest);
        lemma_word_end(word.drop_first(), rest);
    } else {
        assert(s =~= rest);
    }
}

/// An instant is a `YYYY-MM-DD`, or one with more behind it and a colon in
/// that.
pub proof fn lemma_instants(s: Seq<char>)
    ensures
        instant(s) <==> s.len() >= 10 && scalar::ymd(s.take(10)) && (s.len() == 10 || exists|i: int|
            10 <= i < s.len() && #[trigger] s[i] == ':'),
{
    if s.len() == 10 {
        assert(s.take(10) =~= s);
    }
    if s.len() > 10 && scalar::ymd(s.take(10)) {
        if s.contains(':') {
            let i = choose|i: int| 0 <= i < s.len() && s[i] == ':';
            if i < 10 {
                assert(s.take(10)[i] == ':');
                assert(i != 4 && i != 7 ==> text::is_digit(s.take(10)[i]));
            }
        }
    }
}

/// Whether four digits, a hyphen and two digits stand at a place.
pub open spec fn dated_at(s: Seq<char>, i: int) -> bool {
    &&& 0 <= i && i + 7 <= s.len()
    &&& number::all_digits(s.subrange(i, i + 4))
    &&& s[i + 4] == '-'
    &&& number::all_digits(s.subrange(i + 5, i + 7))
}

/// The date of a path is the first `YYYY-MM` in it: with the hyphen and the two
/// digits behind it, whichever they are, as they stand there, or else the
/// first of that month. A path without one has no date.
pub proof fn lemma_path_date(s: Seq<char>, i: int)
    requires
        0 <= i <= s.len(),
        forall|j: int| 0 <= j < i ==> !#[trigger] dated_at(s, j),
        i < s.len() ==> dated_at(s, i),
    ensures
        i == s.len() ==> date_from(s, 0) is None,
        i < s.len() && i + 10 <= s.len() && s[i + 7] == '-' && number::all_digits(
            s.subrange(i + 8, i + 10),
        ) ==> date_from(s, 0) == Some(s.subrange(i, i + 10)),
        i < s.len() && !(i + 10 <= s.len() && s[i + 7] == '-' && number::all_digits(
            s.subrange(i + 8, i + 10),
        )) ==> date_from(s, 0) == Some(s.subrange(i, i + 7) + "-01"@),
{
    lemma_date_search(s, 0, i);
    if i < s.len() && i + 10 <= s.len() {
        let d = s.subrange(i + 8, i + 10);
        assert(d[0] == s[i + 8] && d[1] == s[i + 9]);
    }
}

proof fn lemma_date_search(s: Seq<char>, from: int, i: int)
    requires
        0 <= from <= i <= s.len(),
        forall|j: int| 0 <= j < i ==> !#[trigger] dated_at(s, j),
        i < s.len() ==> dated_at(s, i),
    ensures
        i == s.len() ==> date_from(s, from) is None,
        i < s.len() ==> date_from(s, from) == date_from(s, i) && month_at(s, i),
    decreases i - from,
{
    lemma_dated_at(s, from);
    if from < i {
        assert(!dated_at(s, from));
        lemma_date_search(s, from + 1, i);
    }
}

proof fn lemma_dated_at(s: Seq<char>, i: int)
    ensures
        dated_at(s, i) == month_at(s, i),
{
    if 0 <= i && i + 7 <= s.len() {
        let y = s.subrange(i, i + 4);
        let m = s.subrange(i + 5, i + 7);
        assert(y[0] == s[i + 0] && y[1] == s[i + 1] && y[2] == s[i + 2] && y[3] == s[i + 3]);
        assert(m[0] == s[i + 5] && m[1] == s[i + 6]);
        if month_at(s, i) {
            assert(text::is_digit(s[i + 0]) && text::is_digit(s[i + 1]) && text::is_digit(s[i + 2])
                && text::is_digit(s[i + 3]));
            assert(text::is_digit(s[i + 5]) && text::is_digit(s[i + 6]));
        }
        if dated_at(s, i) {
            assert forall|k: int| 0 <= k < 7 && k != 4 implies text::is_digit(
                #[trigger] s[i + k],
            ) by {
                if k < 4 {
                    assert(text::is_digit(y[k]));
                } else {
                    assert(text::is_digit(m[k - 5]));
                }
            }
        }
    }
}

/// The synthetic month of a place counts twelve to the year from January 2000
/// on, and is written as the first day of that month.
pub proof fn lemma_synthetic(years: nat, months: nat)
    requires
        months < 12,
    ensures
        synthetic(12 * years + months) == text::decimal(2000 + years) + "-"@ + scalar::pair(
            (months + 1) as int,
        ) + "-01"@,
{
    reveal_strlit("0");
    let index = 12 * years + months;
    assert(index / 12 == years && index % 12 == months);
    let m = months + 1;
    text::lemma_decimal(1, (m % 10) as nat);
    if m < 10 {
        text::lemma_decimal(0, m);
        assert(two(m) =~= scalar::pair(m as int));
    } else {
        text::lemma_decimal(0, 1);
        assert(text::decimal(m) == text::decimal(1).push((48 + m % 10) as char));
        assert(two(m) =~= scalar::pair(m as int));
    }
}

/// The lines are read in order: one that lists nothing adds nothing; one that
/// lists a path adds it with its line, and with its instant or else the date
/// of the path; a bad instant ends the reading.
pub proof fn lemma_listed_step(list: Seq<char>, lines: Seq<Seq<char>>, line: Seq<char>)
    ensures
        listed(list, seq![]) == Ok::<Seq<Undated>, Fault>(seq![]),
        match listed(list, lines) {
            Err(fault) => listed(list, lines.push(line)) == Err::<Seq<Undated>, Fault>(fault),
            Ok(raws) => match fields(line) {
                None => listed(list, lines.push(line)) == Ok::<Seq<Undated>, Fault>(raws),
                Some((source, None)) => listed(list, lines.push(line)) == Ok::<Seq<Undated>, Fault>(
                    raws.push(
                        Undated { line: lines.len() + 1, source, at: date_from(source, 0) },
                    ),
                ),
                Some((source, Some(when))) => if instant(when) {
                    listed(list, lines.push(line)) == Ok::<Seq<Undated>, Fault>(
                        raws.push(Undated { line: lines.len() + 1, source, at: Some(when) }),
                    )
                } else {
                    listed(list, lines.push(line)) == Err::<Seq<Undated>, Fault>(
                        Fault::Manifest {
                            path: list,
                            line: (lines.len() + 1) as int,
                            message: "`"@ + when + "` is not a YYYY-MM-DD date or timestamp"@,
                        },
                    )
                },
            },
        },
{
    assert(lines.push(line).drop_last() =~= lines);
}

/// A list where every file has an instant keeps each as it is.
pub proof fn lemma_all_dated(list: Seq<char>, raws: Seq<Undated>)
    requires
        raws.len() > 0,
        forall|i: int| 0 <= i < raws.len() ==> (#[trigger] raws[i]).at is Some,
    ensures
        resolved(list, raws) matches Ok(entries) && entries.len() == raws.len() && forall|i: int|
            0 <= i < raws.len() ==> (#[trigger] entries[i]).source == raws[i].source && Some(
                entries[i].at,
            ) == raws[i].at,
{
    assert(raws[0].at is Some);
    lemma_dated_front(raws, raws.len() as int);
}

/// A list where no file has an instant gives each the synthetic month of its
/// place.
pub proof fn lemma_none_dated(list: Seq<char>, raws: Seq<Undated>)
    requires
        raws.len() > 0,
        forall|i: int| 0 <= i < raws.len() ==> (#[trigger] raws[i]).at is None,
    ensures
        resolved(list, raws) matches Ok(entries) && entries.len() == raws.len() && forall|i: int|
            0 <= i < raws.len() ==> (#[trigger] entries[i]).source == raws[i].source
                && entries[i].at == synthetic(i as nat),
{
}

/// A list where some files have an instant and some have none is refused at
/// the first that has none, by its line; an empty list is refused too.
pub proof fn lemma_some_dated(list: Seq<char>, raws: Seq<Undated>, i: int, j: int)
    requires
        0 <= i < raws.len(),
        raws[i].at is None,
        forall|k: int| 0 <= k < i ==> (#[trigger] raws[k]).at is Some,
        0 <= j < raws.len(),
        raws[j].at is Some,
    ensures
        resolved(list, raws) == Err::<Seq<Listed>, Fault>(
            Fault::Manifest {
                path: list,
                line: raws[i].line as int,
                message: "no date for `"@ + raws[i].source
                    + "` (other lines have dates, so this one needs one too)"@,
            },
        ),
        resolved(list, seq![]) == Err::<Seq<Listed>, Fault>(
            Fault::Manifest { path: list, line: 0, message: "manifest lists no files"@ },
        ),
{
    lemma_dated_front(raws, i);
}

/// A manifest is its lines, read and then dated.
pub proof fn lemma_parsed(list: Seq<char>, s: Seq<char>)
    ensures
        match listed(list, lines_of(s)) {
            Ok(raws) => parsed(list, s) == resolved(list, raws),
            Err(fault) => parsed(list, s) == Err::<Seq<Listed>, Fault>(fault),
        },
{
}

} // verus!
