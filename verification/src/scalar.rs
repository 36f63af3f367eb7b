//! The scalar types a column can have, and which values fit them.

use crate::number;
use crate::text;
use vstd::prelude::*;

verus! {

/// The Postgres scalar types we infer. The order of the variants is also the
/// specificity order used when several still fit (boolean is most specific,
/// text is the fallback).
#[derive(Clone, Copy, PartialEq, Eq, Debug, Structural)]
pub enum ColType {
    Boolean,
    Bigint,
    Numeric,
    Date,
    Timestamptz,
    Text,
}

/// The name of a type in SQL.
pub open spec fn sql_name(ty: ColType) -> Seq<char> {
    match ty {
        ColType::Boolean => "boolean"@,
        ColType::Bigint => "bigint"@,
        ColType::Numeric => "numeric"@,
        ColType::Date => "date"@,
        ColType::Timestamptz => "timestamptz"@,
        ColType::Text => "text"@,
    }
}

impl ColType {
    /// The literal used both as the column type in DDL and as the cast target
    /// (`$1::<sql>`) when loading text parameters.
    pub fn sql(self) -> (out: &'static str)
        ensures
            out@ == sql_name(self),
    {
        match self {
            ColType::Boolean => "boolean",
            ColType::Bigint => "bigint",
            ColType::Numeric => "numeric",
            ColType::Date => "date",
            ColType::Timestamptz => "timestamptz",
            ColType::Text => "text",
        }
    }
}

/// The candidate scalar types, most specific first. [`ColType::Text`] is the
/// fallback and is not among them (every value satisfies it).
pub open spec fn candidates() -> Seq<ColType> {
    seq![
        ColType::Boolean,
        ColType::Bigint,
        ColType::Numeric,
        ColType::Date,
        ColType::Timestamptz,
    ]
}

/// Whether a value fits a type.
pub open spec fn fits(ty: ColType, s: Seq<char>) -> bool {
    match ty {
        ColType::Boolean => boolean(s),
        ColType::Bigint => integer(s),
        ColType::Numeric => number::numeric(s),
        ColType::Date => date(s),
        ColType::Timestamptz => timestamp(s),
        ColType::Text => true,
    }
}

/// Apply each candidate's predicate to a value, in the order of
/// [`candidates`].
pub fn candidate_checks(raw: &str) -> (out: [bool; 5])
    ensures
        forall|k: int| 0 <= k < 5 ==> #[trigger] out@[k] == fits(candidates()[k], raw@),
{
    [is_bool(raw), is_int(raw), is_numeric(raw), is_date(raw), is_timestamp(raw)]
}

/// One of the words for a truth value, in any case.
pub open spec fn boolean(s: Seq<char>) -> bool {
    let w = text::lowered(s);
    w == "true"@ || w == "false"@ || w == "t"@ || w == "f"@ || w == "yes"@ || w == "no"@
}

pub fn is_bool(s: &str) -> (out: bool)
    ensures
        out == boolean(s@),
{
    let lowered = text::to_lowered(s);
    let w = lowered.as_str();
    text::same(w, "true") || text::same(w, "false") || text::same(w, "t") || text::same(w, "f")
        || text::same(w, "yes") || text::same(w, "no")
}

/// An optional sign and digits, for a number of 64 bits.
pub open spec fn integer(s: Seq<char>) -> bool {
    let d = if number::signed_at(s, 0) {
        s.skip(1)
    } else {
        s
    };
    let v = number::signed_value(number::signed_at(s, 0) && s[0] == '-', d);
    d.len() > 0 && number::all_digits(d) && i64::MIN <= v <= i64::MAX
}

pub fn is_int(s: &str) -> (out: bool)
    ensures
        out == integer(s@),
{
    let chars = text::chars_of(s);
    let signed = chars.len() > 0 && (chars[0] == '+' || chars[0] == '-');
    let negative = signed && chars[0] == '-';
    let start: usize = if signed {
        1
    } else {
        0
    };
    let ghost d = s@.skip(start as int);
    assert(!signed ==> d =~= s@);
    if start >= chars.len() {
        return false;
    }
    let mut value: u128 = 0;
    let mut i = start;
    assert(number::digits_value(d.take(0)) == 0);
    while i < chars.len()
        invariant
            start <= i <= chars@.len(),
            start <= 1,
            chars@ == s@,
            d == s@.skip(start as int),
            value == number::digits_value(d.take(i - start)),
            value <= 0x8000_0000_0000_0000,
            number::all_digits(d.take(i - start)),
            signed == number::signed_at(s@, 0),
            negative == (signed && s@[0] == '-'),
            start == if signed {
                1int
            } else {
                0
            },
            !signed ==> d == s@,
        decreases chars@.len() - i,
    {
        let c = chars[i];
        assert(d[i - start] == c);
        if !text::digit(c) {
            return false;
        }
        let ghost t = d.take(i + 1 - start);
        proof {
            assert(t.drop_last() =~= d.take(i - start));
            assert(t.last() == c);
            assert forall|k: int| 0 <= k < t.len() implies text::is_digit(#[trigger] t[k]) by {
                if k < t.len() - 1 {
                    assert(t[k] == d.take(i - start)[k]);
                }
            }
        }
        value = 10 * value + (c as u8 - 48) as u128;
        if value > 0x8000_0000_0000_0000 {
            proof {
                number::lemma_value_grows(d, i + 1 - start);
            }
            return false;
        }
        i += 1;
    }
    assert(d.take(i - start) =~= d);
    negative || value < 0x8000_0000_0000_0000
}

/// Plain decimal with optional sign, single dot, and optional exponent.
/// Rejects `inf` and `nan`, so a stray "inf" can't pin a column to numeric.
pub fn is_numeric(s: &str) -> (out: bool)
    ensures
        out == number::numeric(s@),
{
    number::read(s).is_some()
}

/// How many digits are left when the zeros at the front are taken off.
pub open spec fn significant_len(d: Seq<char>) -> nat
    decreases d.len(),
{
    if d.len() > 0 && d[0] == '0' {
        significant_len(d.drop_first())
    } else {
        d.len()
    }
}

/// The digits that a literal needs before and after the dot; nothing, for
/// scientific notation.
pub open spec fn digit_counts(n: number::Literal) -> Option<(nat, nat)> {
    if n.exponent is Some {
        None
    } else {
        Some((significant_len(n.whole), n.fraction.len()))
    }
}

/// Split a plain decimal literal into `(significant integer digits,
/// fractional digits)`, e.g. `-420.00` -> `(3, 2)` and `0.50` -> `(0, 2)`.
/// Returns `None` for scientific notation, where scale is ambiguous. Caller
/// guarantees that `s` already passed [`is_numeric`].
pub fn decimal_parts(s: &str) -> (out: Option<(usize, usize)>)
    requires
        number::numeric(s@),
    ensures
        match out {
            Some((whole, fraction)) => digit_counts(number::literal(s@)->0) == Some(
                (whole as nat, fraction as nat),
            ),
            None => digit_counts(number::literal(s@)->0) is None,
        },
{
    match number::read(s) {
        Some(n) => number_parts(&n),
        None => None,
    }
}

/// The digits that a number needs before and after the dot.
pub fn number_parts(n: &number::Number) -> (out: Option<(usize, usize)>)
    ensures
        match out {
            Some((whole, fraction)) => digit_counts(n@) == Some((whole as nat, fraction as nat)),
            None => digit_counts(n@) is None,
        },
{
    if n.exponent.is_some() {
        return None;
    }
    let mut zeros: usize = 0;
    assert(n.whole@.skip(0) =~= n.whole@);
    while zeros < n.whole.len() && n.whole[zeros] == '0'
        invariant
            zeros <= n.whole@.len(),
            significant_len(n.whole@.skip(zeros as int)) == significant_len(n.whole@),
        decreases n.whole@.len() - zeros,
    {
        assert(n.whole@.skip(zeros as int).drop_first() =~= n.whole@.skip(zeros + 1));
        zeros += 1;
    }
    Some((n.whole.len() - zeros, n.fraction.len()))
}

/// Four digits, a hyphen, two digits, a hyphen, two digits.
pub open spec fn ymd(s: Seq<char>) -> bool {
    &&& s.len() == 10
    &&& s[4] == '-' && s[7] == '-'
    &&& forall|i: int| 0 <= i < 10 && i != 4 && i != 7 ==> text::is_digit(#[trigger] s[i])
}

/// The number that two digits stand for.
pub open spec fn two_digits(a: char, b: char) -> int {
    10 * (a as int - 48) + (b as int - 48)
}

/// `YYYY-MM-DD` with plausible month and day ranges.
pub open spec fn date(s: Seq<char>) -> bool {
    &&& ymd(s)
    &&& 1 <= two_digits(s[5], s[6]) <= 12
    &&& 1 <= two_digits(s[8], s[9]) <= 31
}

/// Whether the characters from `from` on begin with a `YYYY-MM-DD`.
pub fn ymd_at(chars: &[char], from: usize) -> (out: bool)
    requires
        from <= chars@.len(),
    ensures
        out == (from + 10 <= chars@.len() && ymd(
            chars@.subrange(from as int, from + 10),
        )),
{
    let len = chars.len();
    if len - from < 10 {
        return false;
    }
    let ghost s = chars@.subrange(from as int, from + 10);
    for i in 0..10usize
        invariant
            from + 10 <= len == chars@.len(),
            s == chars@.subrange(from as int, from + 10),
            forall|k: int| 0 <= k < i && k != 4 && k != 7 ==> text::is_digit(#[trigger] s[k]),
            i > 4 ==> s[4] == '-',
            i > 7 ==> s[7] == '-',
    {
        let c = chars[from + i];
        assert(s[i as int] == c);
        if i == 4 || i == 7 {
            if c != '-' {
                return false;
            }
        } else if !text::digit(c) {
            return false;
        }
    }
    true
}

/// Whether a text is shaped like `YYYY-MM-DD`.
pub fn is_ymd(s: &str) -> (out: bool)
    ensures
        out == ymd(s@),
{
    let chars = text::chars_of(s);
    assert(chars@.len() == 10 ==> chars@.subrange(0, 10) =~= s@);
    chars.len() == 10 && ymd_at(chars.as_slice(), 0)
}

/// `YYYY-MM-DD` with plausible month/day ranges. Postgres does the real
/// validation on cast; this just steers inference.
pub fn is_date(s: &str) -> (out: bool)
    ensures
        out == date(s@),
{
    let chars = text::chars_of(s);
    chars.len() == 10 && date_front(&chars)
}

/// Whether the first ten characters are a date.
fn date_front(chars: &Vec<char>) -> (out: bool)
    requires
        chars@.len() >= 10,
    ensures
        out == date(chars@.take(10)),
        chars@.len() == 10 ==> out == date(chars@),
{
    let ghost s = chars@.take(10);
    assert(s =~= chars@.subrange(0, 10));
    assert(chars@.len() == 10 ==> s =~= chars@);
    if !ymd_at(chars.as_slice(), 0) {
        return false;
    }
    assert(text::is_digit(s[5]) && text::is_digit(s[6]));
    assert(text::is_digit(s[8]) && text::is_digit(s[9]));
    let month: u8 = (chars[5] as u8 - 48) * 10 + (chars[6] as u8 - 48);
    let day: u8 = (chars[8] as u8 - 48) * 10 + (chars[9] as u8 - 48);
    1 <= month && month <= 12 && 1 <= day && day <= 31
}

/// A date, a `T` or a space, and somewhere behind it a colon.
pub open spec fn timestamp(s: Seq<char>) -> bool {
    &&& s.len() > 10
    &&& date(s.take(10))
    &&& s[10] == 'T' || s[10] == ' '
    &&& s.skip(10).contains(':')
}

/// A date prefix followed by `T`/space and something containing a colon -
/// loose on purpose, so RFC-3339-ish timestamps with or without zone or
/// fractional seconds all qualify.
pub fn is_timestamp(s: &str) -> (out: bool)
    ensures
        out == timestamp(s@),
{
    let chars = text::chars_of(s);
    if chars.len() <= 10 {
        return false;
    }
    date_front(&chars) && (chars[10] == 'T' || chars[10] == ' ') && has_char(
        chars.as_slice(),
        10,
        ':',
    )
}

/// Whether a character stands at `from` or behind it.
pub fn has_char(chars: &[char], from: usize, c: char) -> (out: bool)
    requires
        from <= chars@.len(),
    ensures
        out == chars@.skip(from as int).contains(c),
{
    let mut i = from;
    while i < chars.len()
        invariant
            from <= i <= chars@.len(),
            forall|k: int| from <= k < i ==> #[trigger] chars@[k] != c,
        decreases chars@.len() - i,
    {
        if chars[i] == c {
            assert(chars@.skip(from as int)[i - from] == c);
            return true;
        }
        i += 1;
    }
    assert forall|k: int| 0 <= k < chars@.skip(from as int).len() implies chars@.skip(
        from as int,
    )[k] != c by {
        assert(chars@[from + k] != c);
    }
    false
}

/// A run of digits is as large as its significant digits say.
pub proof fn lemma_significant_value(d: Seq<char>)
    requires
        number::all_digits(d),
    ensures
        number::digits_value(d) < number::ten(significant_len(d) as int),
        significant_len(d) > 0 ==> number::digits_value(d) >= number::ten(significant_len(d) - 1),
    decreases d.len(),
{
    if d.len() > 0 && d[0] == '0' {
        let rest = d.drop_first();
        assert forall|i: int| 0 <= i < rest.len() implies text::is_digit(#[trigger] rest[i]) by {
            assert(rest[i] == d[i + 1]);
        }
        lemma_significant_value(rest);
        number::lemma_leading(d, 1);
        assert(d.skip(1) =~= rest);
    } else {
        number::lemma_bound(d);
        if d.len() > 0 {
            number::lemma_low(d);
        }
    }
}

/// Every integer is a decimal literal.
pub proof fn lemma_integer_is_numeric(s: Seq<char>)
    requires
        integer(s) || number::numeric(s),
    ensures
        number::numeric(s),
{
    if integer(s) {
        let start: int = if number::signed_at(s, 0) {
            1
        } else {
            0
        };
        assert(s.skip(0) =~= s);
        let d = s.skip(start);
        assert forall|i: int| start <= i < s.len() implies text::is_digit(#[trigger] s[i]) by {
            assert(d[i - start] == s[i]);
        }
        number::lemma_digit_end_all(s, start);
        assert(s.subrange(start, s.len() as int).len() > 0);
    }
}

/// A text says a word, whatever the case of its letters.
pub open spec fn spells(s: Seq<char>, word: Seq<char>) -> bool {
    &&& s.len() == word.len()
    &&& forall|i: int|
        0 <= i < s.len() ==> #[trigger] s[i] == word[i] || s[i] as int == word[i] as int - 32
}

/// The booleans are the six words for true and false, in any case.
pub proof fn lemma_booleans(s: Seq<char>)
    ensures
        fits(ColType::Boolean, s) <==> spells(s, seq!['t', 'r', 'u', 'e']) || spells(
            s,
            seq!['f', 'a', 'l', 's', 'e'],
        ) || spells(s, seq!['t']) || spells(s, seq!['f']) || spells(s, seq!['y', 'e', 's'])
            || spells(s, seq!['n', 'o']),
{
    reveal_strlit("true");
    reveal_strlit("false");
    reveal_strlit("t");
    reveal_strlit("f");
    reveal_strlit("yes");
    reveal_strlit("no");
    lemma_spells(s, "true"@);
    lemma_spells(s, "false"@);
    lemma_spells(s, "t"@);
    lemma_spells(s, "f"@);
    lemma_spells(s, "yes"@);
    lemma_spells(s, "no"@);
    assert("true"@ =~= seq!['t', 'r', 'u', 'e']);
    assert("false"@ =~= seq!['f', 'a', 'l', 's', 'e']);
    assert("t"@ =~= seq!['t']);
    assert("f"@ =~= seq!['f']);
    assert("yes"@ =~= seq!['y', 'e', 's']);
    assert("no"@ =~= seq!['n', 'o']);
}

proof fn lemma_spells(s: Seq<char>, word: Seq<char>)
    requires
        forall|i: int| 0 <= i < word.len() ==> text::is_lower(#[trigger] word[i]),
    ensures
        spells(s, word) <==> text::lowered(s) == word,
{
    let w = text::lowered(s);
    if w == word {
        assert forall|i: int| 0 <= i < s.len() implies #[trigger] s[i] == word[i] || s[i] as int
            == word[i] as int - 32 by {
            assert(w[i] == text::lower(s[i]));
        }
    }
    if spells(s, word) {
        assert forall|i: int| 0 <= i < s.len() implies w[i] == word[i] by {
            assert(text::is_lower(word[i]));
            assert(s[i] == word[i] || s[i] as int == word[i] as int - 32);
        }
        assert(w =~= word);
    }
}

/// Digits with a sign or without are an integer exactly if the number fits in
/// 64 bits; no other text is one.
pub proof fn lemma_integers(sign: Seq<char>, d: Seq<char>, s: Seq<char>)
    ensures
        number::is_sign(sign) && d.len() > 0 && number::all_digits(d) ==> (fits(
            ColType::Bigint,
            sign + d,
        ) <==> if sign == seq!['-'] {
            number::digits_value(d) <= 0x8000_0000_0000_0000
        } else {
            number::digits_value(d) <= 0x7fff_ffff_ffff_ffff
        }),
        fits(ColType::Bigint, s) ==> exists|e: Seq<char>|
            #[trigger] number::all_digits(e) && e.len() > 0 && (s == e || s == seq!['+'] + e || s
                == seq!['-'] + e),
{
    if number::is_sign(sign) && d.len() > 0 && number::all_digits(d) {
        let t = sign + d;
        assert(text::is_digit(d[0]));
        if sign.len() == 0 {
            assert(t =~= d);
        } else {
            assert(t[0] == sign[0]);
            assert(t.skip(1) =~= d);
        }
    }
    if integer(s) {
        let e = if number::signed_at(s, 0) {
            s.skip(1)
        } else {
            s
        };
        assert(number::all_digits(e));
        if number::signed_at(s, 0) {
            assert(s =~= seq![s[0]] + e);
        }
    }
}

/// A text has the shape of a date exactly if it is four digits, a hyphen, two
/// digits, a hyphen and two digits.
pub proof fn lemma_date_shape(s: Seq<char>)
    ensures
        ymd(s) <==> {
            &&& s.len() == 10
            &&& number::all_digits(s.take(4))
            &&& s[4] == '-'
            &&& number::all_digits(s.subrange(5, 7))
            &&& s[7] == '-'
            &&& number::all_digits(s.skip(8))
        },
{
    if s.len() == 10 {
        let y = s.take(4);
        let m = s.subrange(5, 7);
        let d = s.skip(8);
        assert(y[0] == s[0] && y[1] == s[1] && y[2] == s[2] && y[3] == s[3]);
        assert(m[0] == s[5] && m[1] == s[6]);
        assert(d[0] == s[8] && d[1] == s[9]);
    }
}

/// The two digits of a number below a hundred.
pub open spec fn pair(n: int) -> Seq<char> {
    seq![(48 + n / 10) as char, (48 + n % 10) as char]
}

/// Every year of four digits, month from 1 to 12 and day from 1 to 31 is
/// written as a date, with hyphens between them.
pub proof fn lemma_dates(year: Seq<char>, month: int, day: int)
    requires
        year.len() == 4,
        number::all_digits(year),
        0 <= month < 100,
        0 <= day < 100,
    ensures
        fits(ColType::Date, year + seq!['-'] + pair(month) + seq!['-'] + pair(day)) <==> 1 <= month
            <= 12 && 1 <= day <= 31,
        ymd(year + seq!['-'] + pair(month) + seq!['-'] + pair(day)),
{
    let s = year + seq!['-'] + pair(month) + seq!['-'] + pair(day);
    assert(s[0] == year[0] && s[1] == year[1] && s[2] == year[2] && s[3] == year[3]);
    assert(s[5] == pair(month)[0] && s[6] == pair(month)[1]);
    assert(s[8] == pair(day)[0] && s[9] == pair(day)[1]);
    assert(text::is_digit(year[0]) && text::is_digit(year[1]) && text::is_digit(year[2])
        && text::is_digit(year[3]));
}

/// Nothing else is a date: one is a year, a month and a day so written.
pub proof fn lemma_date_parts(s: Seq<char>)
    ensures
        fits(ColType::Date, s) ==> s.len() == 10 && number::all_digits(s.take(4)) && exists|
            month: int,
            day: int,
        |
            1 <= month <= 12 && 1 <= day <= 31 && s == s.take(4) + seq!['-'] + #[trigger] pair(
                month,
            ) + seq!['-'] + #[trigger] pair(day),
{
    if date(s) {
        lemma_date_shape(s);
        let month = two_digits(s[5], s[6]);
        let day = two_digits(s[8], s[9]);
        assert(text::is_digit(s[5]) && text::is_digit(s[6]));
        assert(text::is_digit(s[8]) && text::is_digit(s[9]));
        assert(pair(month) =~= seq![s[5], s[6]]);
        assert(pair(day) =~= seq![s[8], s[9]]);
        assert(s =~= s.take(4) + seq!['-'] + pair(month) + seq!['-'] + pair(day));
    }
}

/// A timestamp is a date, a `T` or a space, and anything with a colon in it.
pub proof fn lemma_timestamps(s: Seq<char>)
    ensures
        fits(ColType::Timestamptz, s) <==> {
            &&& s.len() > 10
            &&& fits(ColType::Date, s.take(10))
            &&& s[10] == 'T' || s[10] == ' '
            &&& exists|i: int| 10 < i < s.len() && #[trigger] s[i] == ':'
        },
{
    if s.len() > 10 {
        let rest = s.skip(10);
        if rest.contains(':') && s[10] != ':' {
            let k = choose|k: int| 0 <= k < rest.len() && rest[k] == ':';
            assert(rest[0] == s[10]);
            assert(s[10 + k] == ':');
        }
        if exists|i: int| 10 < i < s.len() && #[trigger] s[i] == ':' {
            let i = choose|i: int| 10 < i < s.len() && #[trigger] s[i] == ':';
            assert(rest[i - 10] == ':');
        }
    }
}

/// The numbers are the decimal literals, and every text is a text.
pub proof fn lemma_numbers_and_texts(s: Seq<char>)
    ensures
        fits(ColType::Numeric, s) <==> number::literal(s) is Some,
        fits(ColType::Text, s),
{
}

/// The digits that a literal needs: none are counted for one with an
/// exponent; before the dot those from the first that is no zero on, and
/// behind it all.
pub proof fn lemma_digit_counts(n: number::Literal, zeros: nat)
    requires
        zeros <= n.whole.len(),
        forall|i: int| 0 <= i < zeros ==> #[trigger] n.whole[i] == '0',
        zeros < n.whole.len() ==> n.whole[zeros as int] != '0',
    ensures
        digit_counts(n) == if n.exponent is Some {
            None
        } else {
            Some(((n.whole.len() - zeros) as nat, n.fraction.len()))
        },
{
    lemma_significant_len(n.whole, zeros);
}

proof fn lemma_significant_len(d: Seq<char>, zeros: nat)
    requires
        zeros <= d.len(),
        forall|i: int| 0 <= i < zeros ==> #[trigger] d[i] == '0',
        zeros < d.len() ==> d[zeros as int] != '0',
    ensures
        significant_len(d) == d.len() - zeros,
    decreases zeros,
{
    if zeros > 0 {
        assert(d[0] == '0');
        let rest = d.drop_first();
        assert forall|i: int| 0 <= i < zeros - 1 implies #[trigger] rest[i] == '0' by {
            assert(rest[i] == d[i + 1]);
        }
        lemma_significant_len(rest, (zeros - 1) as nat);
    }
}

/// The names of the types in SQL.
pub proof fn lemma_sql_names()
    ensures
        sql_name(ColType::Boolean) == "boolean"@,
        sql_name(ColType::Bigint) == "bigint"@,
        sql_name(ColType::Numeric) == "numeric"@,
        sql_name(ColType::Date) == "date"@,
        sql_name(ColType::Timestamptz) == "timestamptz"@,
        sql_name(ColType::Text) == "text"@,
{
}

} // verus!
