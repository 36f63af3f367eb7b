//! What is observed of a column's values, month after month, and what it
//! says about the column.

use crate::number;
use crate::order;
use crate::order::TextSet;
use crate::scalar;
use crate::scalar::ColType;
use crate::text;
use vstd::prelude::*;

verus! {

/// The characters that Unicode counts as letters, as `char::is_alphabetic`
/// tells them.
pub uninterp spec fn alphabetic(c: char) -> bool;

/// The characters that Unicode counts as lower case, as `char::is_lowercase`
/// tells them.
pub uninterp spec fn lowercase(c: char) -> bool;

/// The characters that Unicode counts as upper case, as `char::is_uppercase`
/// tells them.
pub uninterp spec fn uppercase(c: char) -> bool;

/// The characters that Unicode counts as numbers, as `char::is_numeric` tells
/// them.
pub uninterp spec fn numeral(c: char) -> bool;

/// `char::is_alphabetic` depends on the character alone.
pub assume_specification[ char::is_alphabetic ](c: char) -> (out: bool)
    ensures
        out == alphabetic(c),
;

/// `char::is_lowercase` depends on the character alone.
pub assume_specification[ char::is_lowercase ](c: char) -> (out: bool)
    ensures
        out == lowercase(c),
;

/// `char::is_uppercase` depends on the character alone.
pub assume_specification[ char::is_uppercase ](c: char) -> (out: bool)
    ensures
        out == uppercase(c),
;

/// `char::is_numeric` depends on the character alone.
pub assume_specification[ char::is_numeric ](c: char) -> (out: bool)
    ensures
        out == numeral(c),
;

/// How a column's cardinality reads as a schema-design hint.
#[derive(Clone, Copy, PartialEq, Eq, Debug, Structural)]
pub enum Cardinality {
    /// Few distinct values (`< 5`): a good enum candidate.
    Enum,
    /// In the `5..=10` grey zone: reported, but no firm call.
    Borderline,
    /// Many distinct values (`> 10`): better as its own lookup table.
    Table,
}

/// Character-class facts over a column's non-null values. Each flag means
/// "every observed value satisfied this"; `has_letter` records whether any
/// letter was seen at all, so "uppercase only" can be distinguished from "no
/// letters present".
#[derive(Clone, Copy)]
pub struct CharClasses {
    pub any: bool,
    pub all_ascii: bool,
    pub no_lower: bool,
    pub no_upper: bool,
    pub all_alpha: bool,
    pub all_digit: bool,
    pub all_alnum: bool,
    pub has_letter: bool,
}

/// Whether every character of a text has a property.
pub open spec fn every_char(s: Seq<char>, p: spec_fn(char) -> bool) -> bool {
    forall|i: int| 0 <= i < s.len() ==> p(#[trigger] s[i])
}

/// Whether every character of every text has a property.
pub open spec fn every(values: Seq<Seq<char>>, p: spec_fn(char) -> bool) -> bool {
    forall|i: int| 0 <= i < values.len() ==> every_char(#[trigger] values[i], p)
}

pub open spec fn ascii() -> spec_fn(char) -> bool {
    |c: char| c as u32 <= 0x7f
}

pub open spec fn not_lower_letter() -> spec_fn(char) -> bool {
    |c: char| !(alphabetic(c) && lowercase(c))
}

pub open spec fn not_upper_letter() -> spec_fn(char) -> bool {
    |c: char| !(alphabetic(c) && uppercase(c))
}

pub open spec fn letter() -> spec_fn(char) -> bool {
    |c: char| alphabetic(c)
}

pub open spec fn no_letter() -> spec_fn(char) -> bool {
    |c: char| !alphabetic(c)
}

pub open spec fn digit_only() -> spec_fn(char) -> bool {
    |c: char| !alphabetic(c) && numeral(c)
}

pub open spec fn letter_or_digit() -> spec_fn(char) -> bool {
    |c: char| alphabetic(c) || numeral(c)
}

/// The character classes of some values.
pub open spec fn classes_of(values: Seq<Seq<char>>) -> CharClasses {
    CharClasses {
        any: values.len() > 0,
        all_ascii: every(values, ascii()),
        no_lower: every(values, not_lower_letter()),
        no_upper: every(values, not_upper_letter()),
        all_alpha: every(values, letter()),
        all_digit: every(values, digit_only()),
        all_alnum: every(values, letter_or_digit()),
        has_letter: !every(values, no_letter()),
    }
}

/// The classes once one more value was seen.
pub open spec fn classes_with(c: CharClasses, s: Seq<char>) -> CharClasses {
    CharClasses {
        any: true,
        all_ascii: c.all_ascii && every_char(s, ascii()),
        no_lower: c.no_lower && every_char(s, not_lower_letter()),
        no_upper: c.no_upper && every_char(s, not_upper_letter()),
        all_alpha: c.all_alpha && every_char(s, letter()),
        all_digit: c.all_digit && every_char(s, digit_only()),
        all_alnum: c.all_alnum && every_char(s, letter_or_digit()),
        has_letter: c.has_letter || !every_char(s, no_letter()),
    }
}

proof fn lemma_every_push(values: Seq<Seq<char>>, s: Seq<char>, p: spec_fn(char) -> bool)
    ensures
        every(values.push(s), p) == (every(values, p) && every_char(s, p)),
{
    let all = values.push(s);
    if every(all, p) {
        assert forall|i: int| 0 <= i < values.len() implies every_char(#[trigger] values[i], p) by {
            assert(all[i] == values[i]);
        }
        assert(every_char(all[values.len() as int], p));
    }
    if every(values, p) && every_char(s, p) {
        assert forall|i: int| 0 <= i < all.len() implies every_char(#[trigger] all[i], p) by {
            if i < values.len() {
                assert(all[i] == values[i]);
            }
        }
    }
}

/// Seeing the values one by one gives the classes of them all.
pub proof fn lemma_classes_push(values: Seq<Seq<char>>, s: Seq<char>)
    ensures
        classes_of(values.push(s)) == classes_with(classes_of(values), s),
{
    lemma_every_push(values, s, ascii());
    lemma_every_push(values, s, not_lower_letter());
    lemma_every_push(values, s, not_upper_letter());
    lemma_every_push(values, s, letter());
    lemma_every_push(values, s, digit_only());
    lemma_every_push(values, s, letter_or_digit());
    lemma_every_push(values, s, no_letter());
}

proof fn lemma_every_char_push(s: Seq<char>, c: char, p: spec_fn(char) -> bool)
    ensures
        every_char(s.push(c), p) == (every_char(s, p) && p(c)),
{
    let t = s.push(c);
    if every_char(t, p) {
        assert forall|i: int| 0 <= i < s.len() implies p(#[trigger] s[i]) by {
            assert(t[i] == s[i]);
        }
        assert(p(t[s.len() as int]));
    }
}

/// The label of the tightest character constraint.
pub open spec fn label_of(c: CharClasses) -> Option<Seq<char>> {
    if !c.any {
        None
    } else if c.all_digit {
        Some("digits only"@)
    } else if c.all_alpha && c.has_letter && c.no_lower {
        Some("uppercase letters only"@)
    } else if c.all_alpha && c.has_letter && c.no_upper {
        Some("lowercase letters only"@)
    } else if c.all_alpha {
        Some("letters only"@)
    } else if c.has_letter && c.no_lower {
        Some("uppercase only (no lowercase)"@)
    } else if c.has_letter && c.no_upper {
        Some("lowercase only (no uppercase)"@)
    } else if c.all_alnum {
        Some("alphanumeric only"@)
    } else if c.all_ascii {
        Some("ASCII only"@)
    } else {
        None
    }
}

impl CharClasses {
    pub fn new() -> (out: CharClasses)
        ensures
            out == classes_of(seq![]),
    {
        CharClasses {
            any: false,
            all_ascii: true,
            no_lower: true,
            no_upper: true,
            all_alpha: true,
            all_digit: true,
            all_alnum: true,
            has_letter: false,
        }
    }

    /// Take one more value into account.
    pub fn observe(&mut self, s: &str)
        ensures
            *final(self) == classes_with(*old(self), s@),
    {
        self.any = true;
        let ghost from = *self;
        proof {
            assert(classes_with(from, s@.take(0)) == from);
        }
        for c in it: s.chars()
            invariant
                it.seq() == s@,
                *self == classes_with(from, it.seq().take(it.index())),
        {
            let ghost seen = it.seq().take(it.index());
            proof {
                assert(it.seq().take(it.index() + 1) =~= seen.push(c));
                lemma_every_char_push(seen, c, ascii());
                lemma_every_char_push(seen, c, not_lower_letter());
                lemma_every_char_push(seen, c, not_upper_letter());
                lemma_every_char_push(seen, c, letter());
                lemma_every_char_push(seen, c, digit_only());
                lemma_every_char_push(seen, c, letter_or_digit());
                lemma_every_char_push(seen, c, no_letter());
            }
            if c as u32 > 0x7f {
                self.all_ascii = false;
            }
            if c.is_alphabetic() {
                self.has_letter = true;
                self.all_digit = false;
                if c.is_lowercase() {
                    self.no_lower = false;
                }
                if c.is_uppercase() {
                    self.no_upper = false;
                }
            } else {
                self.all_alpha = false;
                if !c.is_numeric() {
                    self.all_digit = false;
                    self.all_alnum = false;
                }
            }
        }
        assert(s@.take(s@.len() as int) =~= s@);
    }

    /// A short human label for the tightest character constraint, or `None`
    /// when nothing notable holds.
    #[must_use]
    pub fn label(self) -> (out: Option<&'static str>)
        ensures
            match out {
                Some(label) => label_of(self) == Some(label@),
                None => label_of(self) is None,
            },
    {
        if !self.any {
            return None;
        }
        if self.all_digit {
            Some("digits only")
        } else if self.all_alpha && self.has_letter && self.no_lower {
            Some("uppercase letters only")
        } else if self.all_alpha && self.has_letter && self.no_upper {
            Some("lowercase letters only")
        } else if self.all_alpha {
            Some("letters only")
        } else if self.has_letter && self.no_lower {
            Some("uppercase only (no lowercase)")
        } else if self.has_letter && self.no_upper {
            Some("lowercase only (no uppercase)")
        } else if self.all_alnum {
            Some("alphanumeric only")
        } else if self.all_ascii {
            Some("ASCII only")
        } else {
            None
        }
    }
}

/// Observed facts about a column's *values* (as opposed to its type),
/// gathered across every month and turned into constraint suggestions by the
/// report. `distinct` is exact unless `distinct_overflow` is set, in which
/// case there were strictly more than the enum cap.
pub struct Profile {
    /// Count of non-null values observed across every month.
    pub non_null: usize,
    /// Count of null/blank cells observed across every month.
    pub null_count: usize,
    pub distinct: usize,
    pub distinct_overflow: bool,
    pub enum_cap: usize,
    /// Min/max of values that parsed as numbers (for numeric/bigint cols),
    /// kept as the original text so the range prints exactly.
    pub num_range: Option<(String, String)>,
    /// For a `numeric` column, the tightest `(precision, scale)` that fits
    /// every observed value - i.e. a `numeric(p, s)` suggestion. `None` when
    /// the column is not numeric, has no fractional part, or used scientific
    /// notation (where scale is ambiguous).
    pub num_scale: Option<(usize, usize)>,
    /// Lexical (= chronological for ISO values) min/max, shown for
    /// date/timestamp columns.
    pub temporal_range: Option<(String, String)>,
    /// Min/max character length over non-null values.
    pub len_range: Option<(usize, usize)>,
    pub classes: CharClasses,
}

/// What a [`Profile`] says.
#[verifier::ext_equal]
pub struct Facts {
    pub non_null: nat,
    pub null_count: nat,
    pub distinct: nat,
    pub distinct_overflow: bool,
    pub enum_cap: nat,
    pub num_range: Option<(Seq<char>, Seq<char>)>,
    pub num_scale: Option<(nat, nat)>,
    pub temporal_range: Option<(Seq<char>, Seq<char>)>,
    pub len_range: Option<(nat, nat)>,
    pub classes: CharClasses,
}

pub open spec fn text_pair(p: Option<(String, String)>) -> Option<(Seq<char>, Seq<char>)> {
    match p {
        Some((a, b)) => Some((a@, b@)),
        None => None,
    }
}

pub open spec fn count_pair(p: Option<(usize, usize)>) -> Option<(nat, nat)> {
    match p {
        Some((a, b)) => Some((a as nat, b as nat)),
        None => None,
    }
}

impl View for Profile {
    type V = Facts;

    open spec fn view(&self) -> Facts {
        Facts {
            non_null: self.non_null as nat,
            null_count: self.null_count as nat,
            distinct: self.distinct as nat,
            distinct_overflow: self.distinct_overflow,
            enum_cap: self.enum_cap as nat,
            num_range: text_pair(self.num_range),
            num_scale: count_pair(self.num_scale),
            temporal_range: text_pair(self.temporal_range),
            len_range: count_pair(self.len_range),
            classes: self.classes,
        }
    }
}

/// The enum/table recommendation for a number of distinct values.
pub open spec fn cardinality_of(distinct: nat, overflow: bool) -> Cardinality {
    if overflow || distinct > 10 {
        Cardinality::Table
    } else if distinct < 5 {
        Cardinality::Enum
    } else {
        Cardinality::Borderline
    }
}

impl Profile {
    /// Bucket the distinct count into an enum/table recommendation.
    #[must_use]
    pub fn cardinality(&self) -> (out: Cardinality)
        ensures
            out == cardinality_of(self@.distinct, self@.distinct_overflow),
    {
        if self.distinct_overflow || self.distinct > 10 {
            Cardinality::Table
        } else if self.distinct < 5 {
            Cardinality::Enum
        } else {
            Cardinality::Borderline
        }
    }
}

/// The values among the observed cells, in order, the missing ones left out.
pub open spec fn present(cells: Seq<Option<Seq<char>>>) -> Seq<Seq<char>>
    decreases cells.len(),
{
    if cells.len() == 0 {
        seq![]
    } else {
        match cells.last() {
            Some(v) => present(cells.drop_last()).push(v),
            None => present(cells.drop_last()),
        }
    }
}

/// The values that are decimal literals.
pub open spec fn numbers(values: Seq<Seq<char>>) -> Seq<Seq<char>>
    decreases values.len(),
{
    if values.len() == 0 {
        seq![]
    } else if number::numeric(values.last()) {
        numbers(values.drop_last()).push(values.last())
    } else {
        numbers(values.drop_last())
    }
}

/// The first of the values that no other is less than.
pub open spec fn least(
    values: Seq<Seq<char>>,
    less: spec_fn(Seq<char>, Seq<char>) -> bool,
) -> Option<Seq<char>>
    decreases values.len(),
{
    if values.len() == 0 {
        None
    } else {
        match least(values.drop_last(), less) {
            Some(m) => if less(values.last(), m) {
                Some(values.last())
            } else {
                Some(m)
            },
            None => Some(values.last()),
        }
    }
}

pub open spec fn by_value() -> spec_fn(Seq<char>, Seq<char>) -> bool {
    |a: Seq<char>, b: Seq<char>| number::numeric_less(a, b)
}

pub open spec fn by_value_down() -> spec_fn(Seq<char>, Seq<char>) -> bool {
    |a: Seq<char>, b: Seq<char>| number::numeric_less(b, a)
}

pub open spec fn by_text() -> spec_fn(Seq<char>, Seq<char>) -> bool {
    |a: Seq<char>, b: Seq<char>| order::precedes(a, b)
}

pub open spec fn by_text_down() -> spec_fn(Seq<char>, Seq<char>) -> bool {
    |a: Seq<char>, b: Seq<char>| order::precedes(b, a)
}

pub open spec fn by_length() -> spec_fn(Seq<char>, Seq<char>) -> bool {
    |a: Seq<char>, b: Seq<char>| a.len() < b.len()
}

pub open spec fn by_length_down() -> spec_fn(Seq<char>, Seq<char>) -> bool {
    |a: Seq<char>, b: Seq<char>| b.len() < a.len()
}

/// Both ends of the values in an order, if there are values.
pub open spec fn ends(
    values: Seq<Seq<char>>,
    less: spec_fn(Seq<char>, Seq<char>) -> bool,
    more: spec_fn(Seq<char>, Seq<char>) -> bool,
) -> Option<(Seq<char>, Seq<char>)> {
    match (least(values, less), least(values, more)) {
        (Some(lo), Some(hi)) => Some((lo, hi)),
        _ => None,
    }
}

/// Whether none of the literals uses an exponent.
pub open spec fn all_plain(literals: Seq<Seq<char>>) -> bool {
    forall|i: int|
        0 <= i < literals.len() ==> scalar::digit_counts(
            number::literal(#[trigger] literals[i])->0,
        ) is Some
}

/// The most digits that a plain literal has before the dot.
pub open spec fn most_whole(literals: Seq<Seq<char>>) -> nat
    decreases literals.len(),
{
    if literals.len() == 0 {
        0
    } else {
        match scalar::digit_counts(number::literal(literals.last())->0) {
            Some((w, _)) => larger(most_whole(literals.drop_last()), w),
            None => most_whole(literals.drop_last()),
        }
    }
}

/// The most digits that a plain literal has after the dot.
pub open spec fn most_fraction(literals: Seq<Seq<char>>) -> nat
    decreases literals.len(),
{
    if literals.len() == 0 {
        0
    } else {
        match scalar::digit_counts(number::literal(literals.last())->0) {
            Some((_, f)) => larger(most_fraction(literals.drop_last()), f),
            None => most_fraction(literals.drop_last()),
        }
    }
}

pub open spec fn larger(a: nat, b: nat) -> nat {
    if a < b {
        b
    } else {
        a
    }
}

/// Whether every value fits a type.
pub open spec fn all_fit(ty: ColType, values: Seq<Seq<char>>) -> bool {
    forall|i: int| 0 <= i < values.len() ==> scalar::fits(ty, #[trigger] values[i])
}

/// The most specific type that every value fits; text, where there is none.
pub open spec fn type_of(values: Seq<Seq<char>>) -> ColType {
    if values.len() == 0 {
        ColType::Text
    } else if all_fit(ColType::Boolean, values) {
        ColType::Boolean
    } else if all_fit(ColType::Bigint, values) {
        ColType::Bigint
    } else if all_fit(ColType::Numeric, values) {
        ColType::Numeric
    } else if all_fit(ColType::Date, values) {
        ColType::Date
    } else if all_fit(ColType::Timestamptz, values) {
        ColType::Timestamptz
    } else {
        ColType::Text
    }
}

/// The profile of the observed cells.
pub open spec fn profile_of(cells: Seq<Option<Seq<char>>>, enum_cap: nat) -> Facts {
    let values = present(cells);
    let ty = type_of(values);
    let literals = numbers(values);
    let overflow = values.to_set().len() > enum_cap;
    Facts {
        non_null: values.len(),
        null_count: (cells.len() - values.len()) as nat,
        distinct: if overflow {
            enum_cap
        } else {
            values.to_set().len()
        },
        distinct_overflow: overflow,
        enum_cap,
        num_range: if ty == ColType::Bigint || ty == ColType::Numeric {
            ends(literals, by_value(), by_value_down())
        } else {
            None
        },
        num_scale: if ty == ColType::Numeric && all_plain(literals) && most_fraction(literals) > 0 {
            Some((most_whole(literals) + most_fraction(literals), most_fraction(literals)))
        } else {
            None
        },
        temporal_range: if ty == ColType::Date || ty == ColType::Timestamptz {
            ends(values, by_text(), by_text_down())
        } else {
            None
        },
        len_range: match ends(values, by_length(), by_length_down()) {
            Some((lo, hi)) => Some((lo.len(), hi.len())),
            None => None,
        },
        classes: classes_of(values),
    }
}

/// The values of an enum-like column in lexical order: low cardinality (not
/// over the cap) and at least one value repeated, so a column of all-distinct
/// ids is not mistaken for an enum.
pub open spec fn enum_of(cells: Seq<Option<Seq<char>>>, enum_cap: nat) -> Option<Seq<Seq<char>>> {
    let values = present(cells);
    let distinct = values.to_set();
    if 0 < distinct.len() <= enum_cap && distinct.len() < values.len() {
        Some(order::ordered(distinct))
    } else {
        None
    }
}

/// Per-column accumulator. Each `type_ok` flag starts true and is cleared the
/// first time a non-null value fails the matching predicate.
pub struct Accumulator {
    pub non_null: usize,
    pub saw_null: bool,
    pub null_count: usize,
    pub type_ok: [bool; 5],
    pub distinct: TextSet,
    pub distinct_overflow: bool,
    pub enum_cap: usize,
    pub num_min: Option<String>,
    pub num_max: Option<String>,
    pub max_int_digits: usize,
    pub max_scale: usize,
    pub scale_known: bool,
    pub lex_min: Option<String>,
    pub lex_max: Option<String>,
    pub len_min: Option<usize>,
    pub len_max: Option<usize>,
    pub classes: CharClasses,
    /// The cells observed so far; a missing one is `None`.
    pub seen: Ghost<Seq<Option<Seq<char>>>>,
}

pub open spec fn text_opt(t: Option<String>) -> Option<Seq<char>> {
    match t {
        Some(s) => Some(s@),
        None => None,
    }
}

/// The length of a value.
pub open spec fn len_opt(t: Option<Seq<char>>) -> Option<nat> {
    match t {
        Some(s) => Some(s.len()),
        None => None,
    }
}

pub open spec fn count_opt(n: Option<usize>) -> Option<nat> {
    match n {
        Some(k) => Some(k as nat),
        None => None,
    }
}

/// The longest cell whose digits can be counted.
pub open spec fn longest_cell() -> int {
    usize::MAX as int / 2
}

impl Accumulator {
    /// The values observed so far, the missing ones left out.
    pub open spec fn values(&self) -> Seq<Seq<char>> {
        present(self.seen@)
    }

    /// Every field says of the observed cells what it is there for.
    pub open spec fn wf(&self) -> bool {
        let values = self.values();
        let literals = numbers(values);
        &&& self.non_null == values.len()
        &&& self.null_count == self.seen@.len() - values.len()
        &&& self.saw_null == (self.null_count > 0)
        &&& forall|k: int|
            0 <= k < 5 ==> #[trigger] self.type_ok@[k] == all_fit(scalar::candidates()[k], values)
        &&& self.distinct.wf()
        &&& self.distinct_overflow == (values.to_set().len() > self.enum_cap)
        &&& !self.distinct_overflow ==> self.distinct@ == values.to_set()
        &&& self.distinct_overflow ==> self.distinct@ == Set::<Seq<char>>::empty()
        &&& text_opt(self.num_min) == least(literals, by_value())
        &&& text_opt(self.num_max) == least(literals, by_value_down())
        &&& self.max_int_digits == most_whole(literals)
        &&& self.max_scale == most_fraction(literals)
        &&& self.max_int_digits <= longest_cell()
        &&& self.max_scale <= longest_cell()
        &&& self.scale_known == all_plain(literals)
        &&& text_opt(self.lex_min) == least(values, by_text())
        &&& text_opt(self.lex_max) == least(values, by_text_down())
        &&& count_opt(self.len_min) == len_opt(least(values, by_length()))
        &&& count_opt(self.len_max) == len_opt(least(values, by_length_down()))
        &&& self.classes == classes_of(values)
    }

    pub fn new(enum_max: usize) -> (out: Accumulator)
        ensures
            out.wf(),
            out.enum_cap == enum_max,
            out.seen@ == Seq::<Option<Seq<char>>>::empty(),
    {
        let out = Accumulator {
            non_null: 0,
            saw_null: false,
            null_count: 0,
            type_ok: [true, true, true, true, true],
            distinct: TextSet::new(),
            distinct_overflow: false,
            enum_cap: enum_max,
            num_min: None,
            num_max: None,
            max_int_digits: 0,
            max_scale: 0,
            scale_known: true,
            lex_min: None,
            lex_max: None,
            len_min: None,
            len_max: None,
            classes: CharClasses::new(),
            seen: Ghost(Seq::empty()),
        };
        assert(out.values().to_set() =~= Set::empty());
        out
    }
}

/// What one more cell adds to the values.
pub proof fn lemma_present_push(cells: Seq<Option<Seq<char>>>, cell: Option<Seq<char>>)
    ensures
        present(cells.push(cell)) == match cell {
            Some(v) => present(cells).push(v),
            None => present(cells),
        },
        present(cells).len() <= cells.len(),
    decreases cells.len(),
{
    assert(cells.push(cell).drop_last() =~= cells);
    if cells.len() > 0 {
        lemma_present_push(cells.drop_last(), cells.last());
        assert(cells.drop_last().push(cells.last()) =~= cells);
    }
}

/// The better of the value kept so far and a new one.
spec fn better(
    kept: Option<Seq<char>>,
    v: Seq<char>,
    less: spec_fn(Seq<char>, Seq<char>) -> bool,
) -> Option<Seq<char>> {
    match kept {
        Some(m) => if less(v, m) {
            Some(v)
        } else {
            Some(m)
        },
        None => Some(v),
    }
}

proof fn lemma_least_push(
    values: Seq<Seq<char>>,
    v: Seq<char>,
    less: spec_fn(Seq<char>, Seq<char>) -> bool,
)
    ensures
        least(values.push(v), less) == better(least(values, less), v, less),
{
    assert(values.push(v).drop_last() =~= values);
}

proof fn lemma_numbers_push(values: Seq<Seq<char>>, v: Seq<char>)
    ensures
        numbers(values.push(v)) == if number::numeric(v) {
            numbers(values).push(v)
        } else {
            numbers(values)
        },
{
    assert(values.push(v).drop_last() =~= values);
}

proof fn lemma_all_fit_push(ty: ColType, values: Seq<Seq<char>>, v: Seq<char>)
    ensures
        all_fit(ty, values.push(v)) == (all_fit(ty, values) && scalar::fits(ty, v)),
{
    let all = values.push(v);
    if all_fit(ty, all) {
        assert forall|i: int| 0 <= i < values.len() implies scalar::fits(
            ty,
            #[trigger] values[i],
        ) by {
            assert(all[i] == values[i]);
        }
        assert(scalar::fits(ty, all[values.len() as int]));
    }
}

proof fn lemma_digits_push(literals: Seq<Seq<char>>, v: Seq<char>)
    ensures
        all_plain(literals.push(v)) == (all_plain(literals) && scalar::digit_counts(
            number::literal(v)->0,
        ) is Some),
        match scalar::digit_counts(number::literal(v)->0) {
            Some((w, f)) => {
                &&& most_whole(literals.push(v)) == larger(most_whole(literals), w)
                &&& most_fraction(literals.push(v)) == larger(most_fraction(literals), f)
            },
            None => {
                &&& most_whole(literals.push(v)) == most_whole(literals)
                &&& most_fraction(literals.push(v)) == most_fraction(literals)
            },
        },
{
    let all = literals.push(v);
    assert(all.drop_last() =~= literals);
    if all_plain(all) {
        assert forall|i: int| 0 <= i < literals.len() implies scalar::digit_counts(
            number::literal(#[trigger] literals[i])->0,
        ) is Some by {
            assert(all[i] == literals[i]);
        }
        assert(scalar::digit_counts(number::literal(all[literals.len() as int])->0) is Some);
    }
}

/// A literal has no more digits than characters.
proof fn lemma_counts_bounded(s: Seq<char>)
    requires
        number::numeric(s),
    ensures
        scalar::digit_counts(number::literal(s)->0) matches Some((w, f)) ==> w <= s.len() && f
            <= s.len(),
{
    let start: int = if number::signed_at(s, 0) {
        1
    } else {
        0
    };
    number::lemma_digit_end(s, start);
    let dot = number::digit_end(s, start);
    if dot < s.len() && s[dot] == '.' {
        number::lemma_digit_end(s, dot + 1);
    }
    lemma_significant_bounded(number::literal(s)->0.whole);
}

proof fn lemma_significant_bounded(d: Seq<char>)
    ensures
        scalar::significant_len(d) <= d.len(),
    decreases d.len(),
{
    if d.len() > 0 && d[0] == '0' {
        lemma_significant_bounded(d.drop_first());
    }
}

/// Keep the lexically least text, or the greatest.
fn better_text(kept: Option<String>, raw: &str, down: bool) -> (out: Option<String>)
    ensures
        text_opt(out) == better(
            text_opt(kept),
            raw@,
            if down {
                by_text_down()
            } else {
                by_text()
            },
        ),
{
    let replace = match &kept {
        Some(m) => if down {
            order::before(m.as_str(), raw)
        } else {
            order::before(raw, m.as_str())
        },
        None => true,
    };
    if replace {
        Some(raw.to_owned())
    } else {
        kept
    }
}

/// Keep the literal of the least value, or of the greatest.
fn better_number(kept: Option<String>, raw: &str, n: &number::Number, down: bool) -> (out: Option<
    String,
>)
    requires
        number::literal(raw@) == Some(n@),
        n@.wf(),
        text_opt(kept) matches Some(m) ==> number::numeric(m),
    ensures
        text_opt(out) == better(
            text_opt(kept),
            raw@,
            if down {
                by_value_down()
            } else {
                by_value()
            },
        ),
{
    let replace = match &kept {
        Some(m) => match number::read(m.as_str()) {
            Some(k) => if down {
                number::number_less(&k, n)
            } else {
                number::number_less(n, &k)
            },
            None => false,
        },
        None => true,
    };
    if replace {
        Some(raw.to_owned())
    } else {
        kept
    }
}

proof fn lemma_least_numeric(
    literals: Seq<Seq<char>>,
    less: spec_fn(Seq<char>, Seq<char>) -> bool,
)
    requires
        forall|i: int| 0 <= i < literals.len() ==> number::numeric(#[trigger] literals[i]),
    ensures
        least(literals, less) matches Some(m) ==> number::numeric(m),
    decreases literals.len(),
{
    if literals.len() > 0 {
        let p = literals.drop_last();
        assert forall|i: int| 0 <= i < p.len() implies number::numeric(#[trigger] p[i]) by {
            assert(p[i] == literals[i]);
        }
        lemma_least_numeric(p, less);
        assert(number::numeric(literals[literals.len() - 1]));
    }
}

/// Every one of the numbers is a literal.
pub proof fn lemma_numbers_numeric(values: Seq<Seq<char>>)
    ensures
        forall|i: int|
            0 <= i < numbers(values).len() ==> number::numeric(#[trigger] numbers(values)[i]),
    decreases values.len(),
{
    if values.len() > 0 {
        lemma_numbers_numeric(values.drop_last());
        let p = numbers(values.drop_last());
        assert forall|i: int| 0 <= i < numbers(values).len() implies number::numeric(
            #[trigger] numbers(values)[i],
        ) by {
            if i < p.len() {
                assert(numbers(values)[i] == p[i]);
            }
        }
    }
}

impl Accumulator {
    /// Take one more cell into account. `enum_max` is the cap that the
    /// accumulator was made with. A missing cell adds to the null count and
    /// leaves everything else as it is; no more distinct values are kept than
    /// the cap allows, and none once there were more.
    pub fn observe(&mut self, raw: &str, null: bool, enum_max: usize)
        requires
            old(self).wf(),
            enum_max == old(self).enum_cap,
            old(self).seen@.len() < usize::MAX,
            raw@.len() <= longest_cell(),
        ensures
            final(self).wf(),
            final(self).enum_cap == old(self).enum_cap,
            final(self).seen@ == old(self).seen@.push(
                if null {
                    None
                } else {
                    Some(raw@)
                },
            ),
            null ==> *final(self) == (Accumulator {
                saw_null: true,
                null_count: (old(self).null_count + 1) as usize,
                seen: final(self).seen,
                ..*old(self)
            }),
            final(self).distinct@.len() <= final(self).enum_cap,
            final(self).distinct_overflow ==> final(self).distinct@.len() == 0,
    {
        proof {
            lemma_present_push(self.seen@, None);
            lemma_present_push(self.seen@, Some(raw@));
        }
        if null {
            self.saw_null = true;
            self.null_count += 1;
            self.seen = Ghost(self.seen@.push(None));
            return;
        }
        let ghost values = self.values();
        let ghost all = values.push(raw@);
        self.non_null += 1;
        self.observe_types(raw);
        self.observe_distinct(raw);
        self.observe_number(raw);
        self.observe_text(raw);
        self.seen = Ghost(self.seen@.push(Some(raw@)));
        assert(self.values() == all);
    }

    /// Clear the flags of the types that a value does not fit.
    fn observe_types(&mut self, raw: &str)
        requires
            forall|k: int|
                0 <= k < 5 ==> #[trigger] old(self).type_ok@[k] == all_fit(
                    scalar::candidates()[k],
                    old(self).values(),
                ),
        ensures
            *final(self) == (Accumulator { type_ok: final(self).type_ok, ..*old(self) }),
            forall|k: int|
                0 <= k < 5 ==> #[trigger] final(self).type_ok@[k] == all_fit(
                    scalar::candidates()[k],
                    old(self).values().push(raw@),
                ),
    {
        let checks = scalar::candidate_checks(raw);
        let ok = self.type_ok;
        self.type_ok = [
            ok[0] && checks[0],
            ok[1] && checks[1],
            ok[2] && checks[2],
            ok[3] && checks[3],
            ok[4] && checks[4],
        ];
        proof {
            assert forall|k: int| 0 <= k < 5 implies #[trigger] self.type_ok@[k] == all_fit(
                scalar::candidates()[k],
                old(self).values().push(raw@),
            ) by {
                lemma_all_fit_push(scalar::candidates()[k], old(self).values(), raw@);
                assert(ok@[k] == all_fit(scalar::candidates()[k], old(self).values()));
                assert(checks@[k] == scalar::fits(scalar::candidates()[k], raw@));
            }
        }
    }

    /// Add a value to the distinct ones, as long as they are few.
    fn observe_distinct(&mut self, raw: &str)
        requires
            old(self).distinct.wf(),
            old(self).distinct_overflow == (old(self).values().to_set().len()
                > old(self).enum_cap),
            !old(self).distinct_overflow ==> old(self).distinct@ == old(self).values().to_set(),
            old(self).distinct_overflow ==> old(self).distinct@ == Set::<Seq<char>>::empty(),
        ensures
            *final(self) == (Accumulator {
                distinct: final(self).distinct,
                distinct_overflow: final(self).distinct_overflow,
                ..*old(self)
            }),
            final(self).distinct.wf(),
            final(self).distinct_overflow == (old(self).values().push(raw@).to_set().len()
                > old(self).enum_cap),
            !final(self).distinct_overflow ==> final(self).distinct@ == old(self).values().push(
                raw@,
            ).to_set(),
            final(self).distinct_overflow ==> final(self).distinct@ == Set::<Seq<char>>::empty(),
    {
        let ghost values = self.values();
        proof {
            order::lemma_push_set(values, raw@);
            vstd::seq_lib::seq_to_set_is_finite(values);
        }
        if !self.distinct_overflow && !self.distinct.contains(raw) {
            if self.distinct.len() >= self.enum_cap {
                self.distinct_overflow = true;
                self.distinct = TextSet::new();
            } else {
                self.distinct.insert(raw);
            }
        } else {
            assert(!self.distinct_overflow ==> values.push(raw@).to_set() =~= values.to_set());
        }
    }

    /// Numeric range, kept as the original text so it prints exactly, plus the
    /// digits needed for a numeric(precision, scale) suggestion.
    fn observe_number(&mut self, raw: &str)
        requires
            raw@.len() <= longest_cell(),
            ({
                let literals = numbers(old(self).values());
                &&& text_opt(old(self).num_min) == least(literals, by_value())
                &&& text_opt(old(self).num_max) == least(literals, by_value_down())
                &&& old(self).max_int_digits == most_whole(literals)
                &&& old(self).max_scale == most_fraction(literals)
                &&& old(self).max_int_digits <= longest_cell()
                &&& old(self).max_scale <= longest_cell()
                &&& old(self).scale_known == all_plain(literals)
            }),
        ensures
            *final(self) == (Accumulator {
                num_min: final(self).num_min,
                num_max: final(self).num_max,
                max_int_digits: final(self).max_int_digits,
                max_scale: final(self).max_scale,
                scale_known: final(self).scale_known,
                ..*old(self)
            }),
            ({
                let literals = numbers(old(self).values().push(raw@));
                &&& text_opt(final(self).num_min) == least(literals, by_value())
                &&& text_opt(final(self).num_max) == least(literals, by_value_down())
                &&& final(self).max_int_digits == most_whole(literals)
                &&& final(self).max_scale == most_fraction(literals)
                &&& final(self).max_int_digits <= longest_cell()
                &&& final(self).max_scale <= longest_cell()
                &&& final(self).scale_known == all_plain(literals)
            }),
    {
        let ghost values = self.values();
        let ghost literals = numbers(values);
        proof {
            lemma_numbers_push(values, raw@);
        }
        if let Some(n) = number::read(raw) {
            proof {
                lemma_least_push(literals, raw@, by_value());
                lemma_least_push(literals, raw@, by_value_down());
                lemma_digits_push(literals, raw@);
                lemma_counts_bounded(raw@);
                lemma_numbers_numeric(values);
                lemma_least_numeric(literals, by_value());
                lemma_least_numeric(literals, by_value_down());
            }
            let low = self.num_min.take();
            self.num_min = better_number(low, raw, &n, false);
            let high = self.num_max.take();
            self.num_max = better_number(high, raw, &n, true);
            match scalar::number_parts(&n) {
                Some((int_digits, scale)) => {
                    if self.max_int_digits < int_digits {
                        self.max_int_digits = int_digits;
                    }
                    if self.max_scale < scale {
                        self.max_scale = scale;
                    }
                },
                None => {
                    self.scale_known = false;
                },
            }
        }
    }

    /// Lexical range (chronological for ISO date/timestamp values), character
    /// length and class facts.
    fn observe_text(&mut self, raw: &str)
        requires
            ({
                let values = old(self).values();
                &&& text_opt(old(self).lex_min) == least(values, by_text())
                &&& text_opt(old(self).lex_max) == least(values, by_text_down())
                &&& count_opt(old(self).len_min) == len_opt(least(values, by_length()))
                &&& count_opt(old(self).len_max) == len_opt(least(values, by_length_down()))
                &&& old(self).classes == classes_of(values)
            }),
        ensures
            *final(self) == (Accumulator {
                lex_min: final(self).lex_min,
                lex_max: final(self).lex_max,
                len_min: final(self).len_min,
                len_max: final(self).len_max,
                classes: final(self).classes,
                ..*old(self)
            }),
            ({
                let values = old(self).values().push(raw@);
                &&& text_opt(final(self).lex_min) == least(values, by_text())
                &&& text_opt(final(self).lex_max) == least(values, by_text_down())
                &&& count_opt(final(self).len_min) == len_opt(least(values, by_length()))
                &&& count_opt(final(self).len_max) == len_opt(least(values, by_length_down()))
                &&& final(self).classes == classes_of(values)
            }),
    {
        let ghost values = self.values();
        proof {
            lemma_least_push(values, raw@, by_text());
            lemma_least_push(values, raw@, by_text_down());
            lemma_least_push(values, raw@, by_length());
            lemma_least_push(values, raw@, by_length_down());
            lemma_classes_push(values, raw@);
        }
        let low = self.lex_min.take();
        self.lex_min = better_text(low, raw, false);
        let high = self.lex_max.take();
        self.lex_max = better_text(high, raw, true);
        let len = raw.unicode_len();
        self.len_min = match self.len_min {
            Some(m) => if len < m {
                Some(len)
            } else {
                Some(m)
            },
            None => Some(len),
        };
        self.len_max = match self.len_max {
            Some(m) => if m < len {
                Some(len)
            } else {
                Some(m)
            },
            None => Some(len),
        };
        self.classes.observe(raw);
    }
}

/// Nothing but missing cells.
pub open spec fn nulls(n: nat) -> Seq<Option<Seq<char>>> {
    Seq::new(n, |i: int| None)
}

proof fn lemma_present_nulls(n: nat)
    ensures
        present(nulls(n)) == Seq::<Seq<char>>::empty(),
    decreases n,
{
    if n > 0 {
        assert(nulls(n).drop_last() =~= nulls((n - 1) as nat));
        lemma_present_nulls((n - 1) as nat);
    }
}

impl Accumulator {
    /// An accumulator that has seen only missing cells.
    pub fn after_nulls(enum_max: usize, count: usize) -> (out: Accumulator)
        ensures
            out.wf(),
            out.enum_cap == enum_max,
            out.seen@ == nulls(count as nat),
    {
        let mut out = Accumulator::new(enum_max);
        out.null_count = count;
        out.saw_null = count > 0;
        out.seen = Ghost(nulls(count as nat));
        proof {
            lemma_present_nulls(count as nat);
            assert(present(Seq::empty()) =~= out.values());
        }
        out
    }

    /// The most specific type that every value fits.
    pub fn col_type(&self) -> (out: ColType)
        requires
            self.wf(),
        ensures
            out == type_of(self.values()),
    {
        proof {
            assert(self.type_ok@[0] == all_fit(scalar::candidates()[0], self.values()));
            assert(self.type_ok@[1] == all_fit(scalar::candidates()[1], self.values()));
            assert(self.type_ok@[2] == all_fit(scalar::candidates()[2], self.values()));
            assert(self.type_ok@[3] == all_fit(scalar::candidates()[3], self.values()));
            assert(self.type_ok@[4] == all_fit(scalar::candidates()[4], self.values()));
        }
        if self.non_null == 0 {
            ColType::Text
        } else if self.type_ok[0] {
            ColType::Boolean
        } else if self.type_ok[1] {
            ColType::Bigint
        } else if self.type_ok[2] {
            ColType::Numeric
        } else if self.type_ok[3] {
            ColType::Date
        } else if self.type_ok[4] {
            ColType::Timestamptz
        } else {
            ColType::Text
        }
    }

    /// Enum-like means: low cardinality (never overflowed the cap) and at
    /// least one value repeated, so a column of all-distinct ids is not
    /// mistaken for an enum.
    pub fn enum_values(&self) -> (out: Option<Vec<String>>)
        requires
            self.wf(),
        ensures
            match out {
                Some(items) => enum_of(self.seen@, self.enum_cap as nat) == Some(
                    text::texts(items@),
                ),
                None => enum_of(self.seen@, self.enum_cap as nat) is None,
            },
    {
        if self.distinct_overflow {
            return None;
        }
        let distinct = self.distinct.len();
        if distinct == 0 || distinct >= self.non_null {
            return None;
        }
        proof {
            order::lemma_ordered(text::texts(self.distinct.items@));
        }
        Some(text::copies(self.distinct.items.as_slice()))
    }

    /// What the observed cells say about the column.
    pub fn profile(&self) -> (out: Profile)
        requires
            self.wf(),
        ensures
            out@ == profile_of(self.seen@, self.enum_cap as nat),
    {
        let ty = self.col_type();
        let num_range = if ty == ColType::Bigint || ty == ColType::Numeric {
            both(&self.num_min, &self.num_max)
        } else {
            None
        };
        let temporal_range = if ty == ColType::Date || ty == ColType::Timestamptz {
            both(&self.lex_min, &self.lex_max)
        } else {
            None
        };
        // A numeric(p, s) suggestion only makes sense for a numeric column
        // that actually carries a fractional part and never used exponents.
        let num_scale = if ty == ColType::Numeric && self.scale_known && self.max_scale > 0 {
            Some((self.max_int_digits + self.max_scale, self.max_scale))
        } else {
            None
        };
        let len_range = match (self.len_min, self.len_max) {
            (Some(lo), Some(hi)) => Some((lo, hi)),
            _ => None,
        };
        Profile {
            non_null: self.non_null,
            null_count: self.null_count,
            distinct: if self.distinct_overflow {
                self.enum_cap
            } else {
                self.distinct.len()
            },
            distinct_overflow: self.distinct_overflow,
            enum_cap: self.enum_cap,
            num_range,
            num_scale,
            temporal_range,
            len_range,
            classes: self.classes,
        }
    }
}

/// Both texts, if there are both.
fn both(low: &Option<String>, high: &Option<String>) -> (out: Option<(String, String)>)
    ensures
        text_pair(out) == match (text_opt(*low), text_opt(*high)) {
            (Some(a), Some(b)) => Some((a, b)),
            _ => None,
        },
{
    match (low, high) {
        (Some(a), Some(b)) => Some((a.clone(), b.clone())),
        _ => None,
    }
}

/// Where a type stands in the specificity order, the most specific first.
pub open spec fn specificity(ty: ColType) -> int {
    match ty {
        ColType::Boolean => 0,
        ColType::Bigint => 1,
        ColType::Numeric => 2,
        ColType::Date => 3,
        ColType::Timestamptz => 4,
        ColType::Text => 5,
    }
}

/// Every observed value fits the inferred type, and it fits no more specific
/// one.
pub proof fn lemma_type_is_most_specific(values: Seq<Seq<char>>, other: ColType)
    ensures
        all_fit(type_of(values), values),
        values.len() > 0 && all_fit(other, values) ==> specificity(type_of(values))
            <= specificity(other),
{
}

proof fn lemma_least_bounds(
    values: Seq<Seq<char>>,
    less: spec_fn(Seq<char>, Seq<char>) -> bool,
    valid: spec_fn(Seq<char>) -> bool,
)
    requires
        forall|i: int| 0 <= i < values.len() ==> valid(#[trigger] values[i]),
        forall|a: Seq<char>| valid(a) ==> !#[trigger] less(a, a),
        forall|a: Seq<char>, b: Seq<char>, c: Seq<char>|
            valid(a) && valid(b) && valid(c) && !#[trigger] less(a, b) && less(c, b)
                ==> !#[trigger] less(a, c),
    ensures
        match least(values, less) {
            Some(m) => {
                &&& values.contains(m)
                &&& valid(m)
                &&& forall|i: int| 0 <= i < values.len() ==> !less(#[trigger] values[i], m)
            },
            None => values.len() == 0,
        },
    decreases values.len(),
{
    if values.len() > 0 {
        let p = values.drop_last();
        let v = values.last();
        assert forall|i: int| 0 <= i < p.len() implies valid(#[trigger] p[i]) by {
            assert(p[i] == values[i]);
        }
        assert(valid(values[values.len() - 1]));
        lemma_least_bounds(p, less, valid);
        let m = least(values, less)->0;
        match least(p, less) {
            Some(was) => {
                let k = choose|k: int| 0 <= k < p.len() && p[k] == was;
                assert(values[k] == was);
                assert forall|i: int| 0 <= i < values.len() implies !less(
                    #[trigger] values[i],
                    m,
                ) by {
                    if i < p.len() {
                        assert(p[i] == values[i]);
                        assert(!less(p[i], was));
                    }
                }
            },
            None => {},
        }
        assert(values.contains(m));
    }
}

/// Both ends of a numeric range are observed values, and no observed number
/// lies outside of it.
pub proof fn lemma_num_range_bounds(cells: Seq<Option<Seq<char>>>, enum_cap: nat)
    ensures
        profile_of(cells, enum_cap).num_range matches Some((lo, hi)) ==> {
            &&& present(cells).contains(lo)
            &&& present(cells).contains(hi)
            &&& forall|i: int|
                0 <= i < present(cells).len() ==> !number::numeric_less(
                    #[trigger] present(cells)[i],
                    lo,
                ) && !number::numeric_less(hi, present(cells)[i])
        },
        type_of(present(cells)) == ColType::Bigint || type_of(present(cells)) == ColType::Numeric
            ==> profile_of(cells, enum_cap).num_range is Some,
{
    let values = present(cells);
    let ty = type_of(values);
    if ty == ColType::Bigint || ty == ColType::Numeric {
        let literals = numbers(values);
        let valid = |a: Seq<char>| number::numeric(a);
        lemma_all_numbers(values);
        lemma_numbers_numeric(values);
        assert forall|a: Seq<char>, b: Seq<char>, c: Seq<char>|
            valid(a) && valid(b) && valid(c) && !#[trigger] by_value()(a, b) && by_value()(
                c,
                b,
            ) implies !#[trigger] by_value()(a, c) by {
            number::lemma_less_transitive(
                number::literal(c)->0,
                number::literal(b)->0,
                number::literal(a)->0,
            );
            number::lemma_less_transitive(
                number::literal(a)->0,
                number::literal(c)->0,
                number::literal(b)->0,
            );
        }
        assert forall|a: Seq<char>, b: Seq<char>, c: Seq<char>|
            valid(a) && valid(b) && valid(c) && !#[trigger] by_value_down()(a, b)
                && by_value_down()(c, b) implies !#[trigger] by_value_down()(a, c) by {
            number::lemma_less_transitive(
                number::literal(b)->0,
                number::literal(c)->0,
                number::literal(a)->0,
            );
        }
        lemma_least_bounds(literals, by_value(), valid);
        lemma_least_bounds(literals, by_value_down(), valid);
    }
}

/// Where every value is a number, none is left out of the numbers.
proof fn lemma_all_numbers(values: Seq<Seq<char>>)
    requires
        all_fit(ColType::Bigint, values) || all_fit(ColType::Numeric, values),
    ensures
        numbers(values) == values,
    decreases values.len(),
{
    if values.len() > 0 {
        let p = values.drop_last();
        let v = values.last();
        let ty = if all_fit(ColType::Bigint, values) {
            ColType::Bigint
        } else {
            ColType::Numeric
        };
        assert(scalar::fits(ty, values[values.len() - 1]));
        assert forall|i: int| 0 <= i < p.len() implies scalar::fits(ty, #[trigger] p[i]) by {
            assert(p[i] == values[i]);
        }
        assert(all_fit(ty, p));
        lemma_all_numbers(p);
        scalar::lemma_integer_is_numeric(v);
        assert(p.push(v) =~= values);
    }
}

/// Both ends of a date or timestamp range are observed values, and no
/// observed value sorts outside of it.
pub proof fn lemma_temporal_range_bounds(cells: Seq<Option<Seq<char>>>, enum_cap: nat)
    ensures
        profile_of(cells, enum_cap).temporal_range matches Some((lo, hi)) ==> {
            &&& present(cells).contains(lo)
            &&& present(cells).contains(hi)
            &&& forall|i: int|
                0 <= i < present(cells).len() ==> !order::precedes(
                    #[trigger] present(cells)[i],
                    lo,
                ) && !order::precedes(hi, present(cells)[i])
        },
        type_of(present(cells)) == ColType::Date || type_of(present(cells)) == ColType::Timestamptz
            ==> profile_of(cells, enum_cap).temporal_range is Some,
{
    let values = present(cells);
    let valid = |a: Seq<char>| true;
    assert forall|a: Seq<char>| valid(a) implies !#[trigger] by_text()(a, a) by {
        order::lemma_precedes_irreflexive(a);
    }
    assert forall|a: Seq<char>| valid(a) implies !#[trigger] by_text_down()(a, a) by {
        order::lemma_precedes_irreflexive(a);
    }
    assert forall|a: Seq<char>, b: Seq<char>, c: Seq<char>|
        valid(a) && valid(b) && valid(c) && !#[trigger] by_text()(a, b) && by_text()(
            c,
            b,
        ) implies !#[trigger] by_text()(a, c) by {
        if order::precedes(a, c) {
            order::lemma_precedes_transitive(a, c, b);
        }
    }
    assert forall|a: Seq<char>, b: Seq<char>, c: Seq<char>|
        valid(a) && valid(b) && valid(c) && !#[trigger] by_text_down()(a, b) && by_text_down()(
            c,
            b,
        ) implies !#[trigger] by_text_down()(a, c) by {
        if order::precedes(c, a) {
            order::lemma_precedes_transitive(b, c, a);
        }
    }
    lemma_least_bounds(values, by_text(), valid);
    lemma_least_bounds(values, by_text_down(), valid);
}

/// Both ends of a length range are lengths of observed values, and every
/// observed value's length lies between them.
pub proof fn lemma_len_range_bounds(cells: Seq<Option<Seq<char>>>, enum_cap: nat)
    ensures
        profile_of(cells, enum_cap).len_range matches Some((lo, hi)) ==> {
            &&& exists|v: Seq<char>| #[trigger] present(cells).contains(v) && v.len() == lo
            &&& exists|v: Seq<char>| #[trigger] present(cells).contains(v) && v.len() == hi
            &&& forall|i: int|
                0 <= i < present(cells).len() ==> lo <= (#[trigger] present(cells)[i]).len() <= hi
        },
        present(cells).len() > 0 <==> profile_of(cells, enum_cap).len_range is Some,
{
    let values = present(cells);
    let valid = |a: Seq<char>| true;
    lemma_least_bounds(values, by_length(), valid);
    lemma_least_bounds(values, by_length_down(), valid);
    if values.len() > 0 {
        let lo = least(values, by_length())->0;
        let hi = least(values, by_length_down())->0;
        assert(values.contains(lo) && values.contains(hi));
        assert forall|i: int| 0 <= i < values.len() implies lo.len() <= (
        #[trigger] values[i]).len() <= hi.len() by {
            assert(!by_length()(values[i], lo));
            assert(!by_length_down()(values[i], hi));
        }
    }
}

/// Whether a literal can be stored in a `numeric(precision, scale)` as it is
/// written: no more than `scale` digits after the dot, and a whole part below
/// ten to the `precision - scale`.
pub open spec fn storable(n: number::Literal, precision: nat, scale: nat) -> bool {
    &&& n.exponent is None
    &&& n.fraction.len() <= scale
    &&& scale <= precision
    &&& number::digits_value(n.whole) < number::ten(precision - scale)
}

/// A suggested `numeric(p, s)` stores every observed value, and it is the
/// tightest: some value uses all `s` digits after the dot, and the whole part
/// of some value needs all `p - s` digits before it, where there are any.
pub proof fn lemma_num_scale_fits(cells: Seq<Option<Seq<char>>>, enum_cap: nat)
    ensures
        profile_of(cells, enum_cap).num_scale matches Some((p, s)) ==> {
            &&& forall|i: int|
                0 <= i < present(cells).len() ==> storable(
                    number::literal(#[trigger] present(cells)[i])->0,
                    p,
                    s,
                )
            &&& exists|i: int|
                0 <= i < present(cells).len() && number::literal(
                    #[trigger] present(cells)[i],
                )->0.fraction.len() == s
            &&& p > s ==> exists|i: int|
                0 <= i < present(cells).len() && number::digits_value(
                    number::literal(#[trigger] present(cells)[i])->0.whole,
                ) >= number::ten(p - s - 1)
        },
{
    let values = present(cells);
    let facts = profile_of(cells, enum_cap);
    if let Some((p, s)) = facts.num_scale {
        lemma_all_numbers(values);
        lemma_most_digits(values);
        let w = most_whole(values);
        assert forall|i: int| 0 <= i < values.len() implies storable(
            number::literal(#[trigger] values[i])->0,
            p,
            s,
        ) by {
            assert(scalar::fits(ColType::Numeric, values[i]));
            let n = number::literal(values[i])->0;
            number::lemma_literal_digits(values[i]);
            scalar::lemma_significant_value(n.whole);
            number::lemma_ten_monotonic(scalar::significant_len(n.whole) as int, w as int);
        }
        let f = choose|i: int|
            0 <= i < values.len() && counts(#[trigger] values[i]).1 == s;
        assert(number::literal(values[f])->0.fraction.len() == s);
        if p > s {
            let k = choose|i: int|
                0 <= i < values.len() && counts(#[trigger] values[i]).0 == w;
            assert(scalar::fits(ColType::Numeric, values[k]));
            number::lemma_literal_digits(values[k]);
            scalar::lemma_significant_value(number::literal(values[k])->0.whole);
            assert(number::digits_value(number::literal(values[k])->0.whole) >= number::ten(
                p - s - 1,
            ));
        }
    }
}

/// The digits that a plain literal needs before and after the dot.
spec fn counts(s: Seq<char>) -> (nat, nat) {
    scalar::digit_counts(number::literal(s)->0)->0
}

proof fn lemma_most_digits(literals: Seq<Seq<char>>)
    requires
        all_plain(literals),
    ensures
        forall|i: int|
            0 <= i < literals.len() ==> {
                let n = counts(#[trigger] literals[i]);
                n.0 <= most_whole(literals) && n.1 <= most_fraction(literals)
            },
        literals.len() > 0 ==> exists|i: int|
            0 <= i < literals.len() && counts(#[trigger] literals[i]).0 == most_whole(literals),
        literals.len() > 0 ==> exists|i: int|
            0 <= i < literals.len() && counts(#[trigger] literals[i]).1 == most_fraction(literals),
    decreases literals.len(),
{
    if literals.len() > 0 {
        let p = literals.drop_last();
        let last = literals.len() - 1;
        assert forall|i: int| 0 <= i < p.len() implies scalar::digit_counts(
            number::literal(#[trigger] p[i])->0,
        ) is Some by {
            assert(p[i] == literals[i]);
        }
        lemma_most_digits(p);
        assert(scalar::digit_counts(number::literal(literals[last])->0) is Some);
        assert forall|i: int| 0 <= i < literals.len() implies {
            let n = counts(#[trigger] literals[i]);
            n.0 <= most_whole(literals) && n.1 <= most_fraction(literals)
        } by {
            if i < last {
                assert(p[i] == literals[i]);
            }
        }
        if p.len() > 0 {
            let a = choose|i: int|
                0 <= i < p.len() && counts(#[trigger] p[i]).0
                    == most_whole(p);
            assert(p[a] == literals[a]);
            let b = choose|i: int|
                0 <= i < p.len() && counts(#[trigger] p[i]).1
                    == most_fraction(p);
            assert(p[b] == literals[b]);
        }
    }
}

/// The listed values of an enum-like column are exactly the observed ones,
/// each once and in lexical order, no more of them than the cap, and at least
/// one was observed twice.
pub proof fn lemma_enum_complete(cells: Seq<Option<Seq<char>>>, enum_cap: nat)
    ensures
        enum_of(cells, enum_cap) matches Some(listed) ==> {
            &&& listed.to_set() == present(cells).to_set()
            &&& order::ascending(listed)
            &&& listed.no_duplicates()
            &&& 0 < listed.len() <= enum_cap
            &&& listed.len() < present(cells).len()
        },
{
    vstd::seq_lib::seq_to_set_is_finite(present(cells));
    order::lemma_ordered_exists(present(cells).to_set());
}

/// The values are the cells that are not missing, in order.
pub proof fn lemma_present(cells: Seq<Option<Seq<char>>>, v: Seq<char>)
    ensures
        present(seq![]) == Seq::<Seq<char>>::empty(),
        present(cells.push(Some(v))) == present(cells).push(v),
        present(cells.push(None)) == present(cells),
{
    lemma_present_push(cells, Some(v));
    lemma_present_push(cells, None);
}

/// A column without values is text.
pub proof fn lemma_type_without_values()
    ensures
        type_of(seq![]) == ColType::Text,
{
}

/// Each type holds just the values that fit it.
pub proof fn lemma_all_fit(ty: ColType, values: Seq<Seq<char>>)
    ensures
        all_fit(ty, values) <==> forall|i: int|
            0 <= i < values.len() ==> scalar::fits(ty, #[trigger] values[i]),
{
}

/// Every cell is counted once, as a value or as a missing one, and the
/// distinct values are counted up to the cap.
pub proof fn lemma_profile_counts(cells: Seq<Option<Seq<char>>>, enum_cap: nat)
    ensures
        ({
            let p = profile_of(cells, enum_cap);
            let distinct = present(cells).to_set().len();
            &&& p.non_null == present(cells).len()
            &&& p.non_null + p.null_count == cells.len()
            &&& p.enum_cap == enum_cap
            &&& p.classes == classes_of(present(cells))
            &&& p.distinct_overflow <==> distinct > enum_cap
            &&& p.distinct == if distinct < enum_cap {
                distinct
            } else {
                enum_cap
            }
        }),
{
    lemma_present_push(cells, None);
}

/// A numeric range is given for columns of numbers and no others, and of
/// equal values it shows the first.
pub proof fn lemma_num_range_first(cells: Seq<Option<Seq<char>>>, enum_cap: nat)
    ensures
        profile_of(cells, enum_cap).num_range is Some <==> type_of(present(cells))
            == ColType::Bigint || type_of(present(cells)) == ColType::Numeric,
        profile_of(cells, enum_cap).num_range matches Some((lo, hi)) ==> {
            &&& exists|k: int|
                0 <= k < present(cells).len() && #[trigger] present(cells)[k] == lo && forall|
                    j: int,
                |
                    0 <= j < k ==> number::numeric_less(lo, #[trigger] present(cells)[j])
            &&& exists|k: int|
                0 <= k < present(cells).len() && #[trigger] present(cells)[k] == hi && forall|
                    j: int,
                |
                    0 <= j < k ==> number::numeric_less(#[trigger] present(cells)[j], hi)
        },
{
    lemma_num_range_bounds(cells, enum_cap);
    let values = present(cells);
    if profile_of(cells, enum_cap).num_range is Some {
        lemma_all_numbers(values);
        lemma_numbers_numeric(values);
        assert forall|a: Seq<char>, b: Seq<char>, c: Seq<char>|
            #![trigger by_value()(a, b), by_value()(b, c)]
            by_value()(a, b) && by_value()(b, c) implies by_value()(a, c) by {
            number::lemma_less_transitive(
                number::literal(a)->0,
                number::literal(b)->0,
                number::literal(c)->0,
            );
        }
        assert forall|a: Seq<char>, b: Seq<char>, c: Seq<char>|
            #![trigger by_value_down()(a, b), by_value_down()(b, c)]
            by_value_down()(a, b) && by_value_down()(b, c) implies by_value_down()(a, c) by {
            number::lemma_less_transitive(
                number::literal(c)->0,
                number::literal(b)->0,
                number::literal(a)->0,
            );
        }
        assert forall|a: Seq<char>, b: Seq<char>, c: Seq<char>|
            #![trigger by_value()(a, b), by_value()(c, b)]
            number::numeric(a) && number::numeric(b) && number::numeric(c) && by_value()(a, b)
                && !by_value()(c, b) implies by_value()(a, c) by {
            number::lemma_less_transitive(
                number::literal(a)->0,
                number::literal(b)->0,
                number::literal(c)->0,
            );
        }
        assert forall|a: Seq<char>, b: Seq<char>, c: Seq<char>|
            #![trigger by_value_down()(a, b), by_value_down()(c, b)]
            number::numeric(a) && number::numeric(b) && number::numeric(c) && by_value_down()(a, b)
                && !by_value_down()(c, b) implies by_value_down()(a, c) by {
            number::lemma_less_transitive(
                number::literal(c)->0,
                number::literal(b)->0,
                number::literal(a)->0,
            );
        }
        let lo = lemma_least_first(values, by_value());
        let hi = lemma_least_first(values, by_value_down());
        assert forall|j: int| 0 <= j < lo implies number::numeric_less(
            values[lo],
            #[trigger] values[j],
        ) by {
            assert(by_value()(values[lo], values[j]));
        }
        assert forall|j: int| 0 <= j < hi implies number::numeric_less(
            #[trigger] values[j],
            values[hi],
        ) by {
            assert(by_value_down()(values[hi], values[j]));
        }
    }
}

/// The least value is strictly less than every one before it.
proof fn lemma_least_first(
    values: Seq<Seq<char>>,
    less: spec_fn(Seq<char>, Seq<char>) -> bool,
) -> (k: int)
    requires
        values.len() > 0,
        forall|i: int| 0 <= i < values.len() ==> number::numeric(#[trigger] values[i]),
        forall|a: Seq<char>| !#[trigger] less(a, a),
        forall|a: Seq<char>, b: Seq<char>, c: Seq<char>|
            #![trigger less(a, b), less(c, b)]
            number::numeric(a) && number::numeric(b) && number::numeric(c) && less(a, b) && !less(
                c,
                b,
            ) ==> less(a, c),
        forall|a: Seq<char>, b: Seq<char>, c: Seq<char>|
            #![trigger less(a, b), less(b, c)]
            less(a, b) && less(b, c) ==> less(a, c),
    ensures
        0 <= k < values.len(),
        least(values, less) == Some(values[k]),
        forall|j: int| 0 <= j < k ==> less(values[k], #[trigger] values[j]),
        forall|j: int| k <= j < values.len() ==> !less(#[trigger] values[j], values[k]),
    decreases values.len(),
{
    let p = values.drop_last();
    let last = values.len() - 1;
    assert(number::numeric(values[last]));
    if p.len() == 0 {
        assert(least(p, less) is None);
        0
    } else {
        assert forall|i: int| 0 <= i < p.len() implies number::numeric(#[trigger] p[i]) by {
            assert(p[i] == values[i]);
        }
        let k = lemma_least_first(p, less);
        assert(p[k] == values[k]);
        if less(values[last], values[k]) {
            assert forall|j: int| 0 <= j < last implies less(
                values[last],
                #[trigger] values[j],
            ) by {
                assert(p[j] == values[j]);
                if j >= k {
                    assert(!less(p[j], p[k]));
                }
            }
            last
        } else {
            assert forall|j: int| 0 <= j < k implies less(values[k], #[trigger] values[j]) by {
                assert(p[j] == values[j]);
            }
            assert forall|j: int| k <= j < values.len() implies !less(
                #[trigger] values[j],
                values[k],
            ) by {
                if j < last {
                    assert(p[j] == values[j]);
                }
            }
            k
        }
    }
}

/// A scale is suggested exactly for the numeric columns whose literals all do
/// without exponents and one of which has a digit behind the dot.
pub proof fn lemma_num_scale_given(cells: Seq<Option<Seq<char>>>, enum_cap: nat)
    ensures
        profile_of(cells, enum_cap).num_scale is Some <==> {
            &&& type_of(present(cells)) == ColType::Numeric
            &&& forall|i: int|
                0 <= i < present(cells).len() ==> (number::literal(
                    #[trigger] present(cells)[i],
                )->0).exponent is None
            &&& exists|i: int|
                0 <= i < present(cells).len() && (number::literal(
                    #[trigger] present(cells)[i],
                )->0).fraction.len() > 0
        },
{
    let values = present(cells);
    if type_of(values) == ColType::Numeric {
        lemma_all_numbers(values);
        if all_plain(values) {
            lemma_most_digits(values);
            assert forall|i: int| 0 <= i < values.len() implies (number::literal(
                #[trigger] values[i],
            )->0).exponent is None by {
                assert(scalar::digit_counts(number::literal(values[i])->0) is Some);
            }
            if most_fraction(values) > 0 {
                let i = choose|i: int|
                    0 <= i < values.len() && counts(#[trigger] values[i]).1 == most_fraction(values);
                assert((number::literal(values[i])->0).fraction.len() > 0);
            }
            if exists|i: int|
                0 <= i < values.len() && (number::literal(#[trigger] values[i])->0).fraction.len()
                    > 0 {
                let i = choose|i: int|
                    0 <= i < values.len() && (number::literal(
                        #[trigger] values[i],
                    )->0).fraction.len() > 0;
                assert(counts(values[i]).1 <= most_fraction(values));
            }
        } else {
            let i = choose|i: int|
                0 <= i < values.len() && !(scalar::digit_counts(
                    number::literal(#[trigger] values[i])->0,
                ) is Some);
            assert((number::literal(values[i])->0).exponent is Some);
        }
    }
}

/// A date range is given for the columns of dates and timestamps and no
/// others.
pub proof fn lemma_temporal_range_given(cells: Seq<Option<Seq<char>>>, enum_cap: nat)
    ensures
        profile_of(cells, enum_cap).temporal_range is Some <==> type_of(present(cells))
            == ColType::Date || type_of(present(cells)) == ColType::Timestamptz,
{
    lemma_temporal_range_bounds(cells, enum_cap);
}

/// A column is enum-like exactly if it has values, no more distinct ones than
/// the cap, and one that was observed twice.
pub proof fn lemma_enum_like(cells: Seq<Option<Seq<char>>>, enum_cap: nat)
    ensures
        enum_of(cells, enum_cap) is Some <==> {
            &&& present(cells).to_set().len() <= enum_cap
            &&& exists|i: int, j: int|
                0 <= i < j < present(cells).len() && #[trigger] present(cells)[i]
                    == #[trigger] present(cells)[j]
        },
{
    let values = present(cells);
    vstd::seq_lib::seq_to_set_is_finite(values);
    if values.no_duplicates() {
        values.unique_seq_to_set();
    } else {
        lemma_repeat(values);
        let (i, j) = choose|i: int, j: int|
            0 <= i < values.len() && 0 <= j < values.len() && i != j && values[i] == values[j];
        assert(values[i] == values[j] && values[j] == values[i]);
        assert(values.to_set().contains(values[0]));
        if values.to_set().len() == 0 {
            assert(values.to_set() =~= Set::empty());
        }
    }
}

proof fn lemma_repeat(values: Seq<Seq<char>>)
    requires
        !values.no_duplicates(),
    ensures
        values.to_set().len() < values.len(),
    decreases values.len(),
{
    let p = values.drop_last();
    let v = values.last();
    assert(values =~= p.push(v));
    order::lemma_push_set(p, v);
    vstd::seq_lib::seq_to_set_is_finite(p);
    if p.no_duplicates() {
        p.unique_seq_to_set();
        let (i, j) = choose|i: int, j: int|
            0 <= i < values.len() && 0 <= j < values.len() && i != j && values[i] == values[j];
        if i < p.len() && j < p.len() {
            assert(p[i] == p[j]);
        }
        assert(p.contains(v)) by {
            if i < p.len() {
                assert(p[i] == v);
            } else {
                assert(p[j] == v);
            }
        }
        assert(p.to_set().insert(v) =~= p.to_set());
    } else {
        lemma_repeat(p);
    }
}

/// Few values make an enum, many a lookup table, and an uncounted number
/// counts as many.
pub proof fn lemma_cardinality(distinct: nat, overflow: bool)
    ensures
        cardinality_of(distinct, overflow) == Cardinality::Table <==> overflow || distinct >= 11,
        cardinality_of(distinct, overflow) == Cardinality::Enum <==> !overflow && distinct <= 4,
        cardinality_of(distinct, overflow) == Cardinality::Borderline <==> !overflow && 5
            <= distinct <= 10,
{
}

/// What the character classes of some values say of each of their characters.
pub proof fn lemma_classes(values: Seq<Seq<char>>)
    ensures
        ({
            let c = classes_of(values);
            &&& c.any <==> values.len() > 0
            &&& c.all_ascii <==> forall|i: int, k: int|
                0 <= i < values.len() && 0 <= k < values[i].len() ==> (
                #[trigger] values[i][k]) as u32 <= 127
            &&& c.no_lower <==> forall|i: int, k: int|
                0 <= i < values.len() && 0 <= k < values[i].len() ==> !(alphabetic(
                    #[trigger] values[i][k],
                ) && lowercase(values[i][k]))
            &&& c.no_upper <==> forall|i: int, k: int|
                0 <= i < values.len() && 0 <= k < values[i].len() ==> !(alphabetic(
                    #[trigger] values[i][k],
                ) && uppercase(values[i][k]))
            &&& c.all_alpha <==> forall|i: int, k: int|
                0 <= i < values.len() && 0 <= k < values[i].len() ==> alphabetic(
                    #[trigger] values[i][k],
                )
            &&& c.all_digit <==> forall|i: int, k: int|
                0 <= i < values.len() && 0 <= k < values[i].len() ==> !alphabetic(
                    #[trigger] values[i][k],
                ) && numeral(values[i][k])
            &&& c.all_alnum <==> forall|i: int, k: int|
                0 <= i < values.len() && 0 <= k < values[i].len() ==> alphabetic(
                    #[trigger] values[i][k],
                ) || numeral(values[i][k])
            &&& c.has_letter <==> exists|i: int, k: int|
                0 <= i < values.len() && 0 <= k < values[i].len() && alphabetic(
                    #[trigger] values[i][k],
                )
        }),
{
    lemma_every_all(values, ascii());
    assert(every(values, ascii()) <==> forall|i: int, k: int|
        0 <= i < values.len() && 0 <= k < values[i].len() ==> (#[trigger] values[i][k]) as u32 <= 127) by {
        if every(values, ascii()) {
            assert forall|i: int, k: int|
                0 <= i < values.len() && 0 <= k < values[i].len() implies (#[trigger] values[i][k]) as u32 <= 127 by {
                assert(ascii()(values[i][k]));
            }
        } else {
            let (i, k) = choose|i: int, k: int|
                0 <= i < values.len() && 0 <= k < values[i].len() && !ascii()(
                    #[trigger] values[i][k],
                );
            assert(!ascii()(values[i][k]));
        }
    }
    lemma_every_all(values, not_lower_letter());
    assert(every(values, not_lower_letter()) <==> forall|i: int, k: int|
        0 <= i < values.len() && 0 <= k < values[i].len() ==> !(alphabetic(#[trigger] values[i][k]) && lowercase(values[i][k]))) by {
        if every(values, not_lower_letter()) {
            assert forall|i: int, k: int|
                0 <= i < values.len() && 0 <= k < values[i].len() implies !(alphabetic(#[trigger] values[i][k]) && lowercase(values[i][k])) by {
                assert(not_lower_letter()(values[i][k]));
            }
        } else {
            let (i, k) = choose|i: int, k: int|
                0 <= i < values.len() && 0 <= k < values[i].len() && !not_lower_letter()(
                    #[trigger] values[i][k],
                );
            assert(!not_lower_letter()(values[i][k]));
        }
    }
    lemma_every_all(values, not_upper_letter());
    assert(every(values, not_upper_letter()) <==> forall|i: int, k: int|
        0 <= i < values.len() && 0 <= k < values[i].len() ==> !(alphabetic(#[trigger] values[i][k]) && uppercase(values[i][k]))) by {
        if every(values, not_upper_letter()) {
            assert forall|i: int, k: int|
                0 <= i < values.len() && 0 <= k < values[i].len() implies !(alphabetic(#[trigger] values[i][k]) && uppercase(values[i][k])) by {
                assert(not_upper_letter()(values[i][k]));
            }
        } else {
            let (i, k) = choose|i: int, k: int|
                0 <= i < values.len() && 0 <= k < values[i].len() && !not_upper_letter()(
                    #[trigger] values[i][k],
                );
            assert(!not_upper_letter()(values[i][k]));
        }
    }
    lemma_every_all(values, letter());
    assert(every(values, letter()) <==> forall|i: int, k: int|
        0 <= i < values.len() && 0 <= k < values[i].len() ==> alphabetic(#[trigger] values[i][k])) by {
        if every(values, letter()) {
            assert forall|i: int, k: int|
                0 <= i < values.len() && 0 <= k < values[i].len() implies alphabetic(#[trigger] values[i][k]) by {
                assert(letter()(values[i][k]));
            }
        } else {
            let (i, k) = choose|i: int, k: int|
                0 <= i < values.len() && 0 <= k < values[i].len() && !letter()(
                    #[trigger] values[i][k],
                );
            assert(!letter()(values[i][k]));
        }
    }
    lemma_every_all(values, digit_only());
    assert(every(values, digit_only()) <==> forall|i: int, k: int|
        0 <= i < values.len() && 0 <= k < values[i].len() ==> !alphabetic(#[trigger] values[i][k]) && numeral(values[i][k])) by {
        if every(values, digit_only()) {
            assert forall|i: int, k: int|
                0 <= i < values.len() && 0 <= k < values[i].len() implies !alphabetic(#[trigger] values[i][k]) && numeral(values[i][k]) by {
                assert(digit_only()(values[i][k]));
            }
        } else {
            let (i, k) = choose|i: int, k: int|
                0 <= i < values.len() && 0 <= k < values[i].len() && !digit_only()(
                    #[trigger] values[i][k],
                );
            assert(!digit_only()(values[i][k]));
        }
    }
    lemma_every_all(values, letter_or_digit());
    assert(every(values, letter_or_digit()) <==> forall|i: int, k: int|
        0 <= i < values.len() && 0 <= k < values[i].len() ==> alphabetic(#[trigger] values[i][k]) || numeral(values[i][k])) by {
        if every(values, letter_or_digit()) {
            assert forall|i: int, k: int|
                0 <= i < values.len() && 0 <= k < values[i].len() implies alphabetic(#[trigger] values[i][k]) || numeral(values[i][k]) by {
                assert(letter_or_digit()(values[i][k]));
            }
        } else {
            let (i, k) = choose|i: int, k: int|
                0 <= i < values.len() && 0 <= k < values[i].len() && !letter_or_digit()(
                    #[trigger] values[i][k],
                );
            assert(!letter_or_digit()(values[i][k]));
        }
    }
    lemma_every_all(values, no_letter());
    if !every(values, no_letter()) {
        let (i, k) = choose|i: int, k: int|
            0 <= i < values.len() && 0 <= k < values[i].len() && !no_letter()(
                #[trigger] values[i][k],
            );
        assert(alphabetic(values[i][k]));
    } else {
        assert forall|i: int, k: int|
            0 <= i < values.len() && 0 <= k < values[i].len() implies !alphabetic(
            #[trigger] values[i][k],
        ) by {
            assert(no_letter()(values[i][k]));
        }
    }
}

proof fn lemma_every_all(values: Seq<Seq<char>>, p: spec_fn(char) -> bool)
    ensures
        every(values, p) <==> forall|i: int, k: int|
            0 <= i < values.len() && 0 <= k < values[i].len() ==> p(#[trigger] values[i][k]),
{
    if every(values, p) {
        assert forall|i: int, k: int| 0 <= i < values.len() && 0 <= k < values[i].len() implies p(
            #[trigger] values[i][k],
        ) by {
            assert(every_char(values[i], p));
        }
    }
}

/// The label names the tightest of the classes that hold: digits before
/// letters of one case, those before letters of both, then texts with letters
/// of one case, then letters and digits, then ASCII.
pub proof fn lemma_labels(c: CharClasses)
    ensures
        !c.any ==> label_of(c) is None,
        c.any && c.all_digit ==> label_of(c) == Some("digits only"@),
        c.any && !c.all_digit && c.all_alpha && c.has_letter && c.no_lower ==> label_of(c) == Some(
            "uppercase letters only"@,
        ),
        c.any && !c.all_digit && c.all_alpha && c.has_letter && !c.no_lower && c.no_upper
            ==> label_of(c) == Some("lowercase letters only"@),
        c.any && !c.all_digit && c.all_alpha && c.has_letter && !c.no_lower && !c.no_upper
            ==> label_of(c) == Some("letters only"@),
        c.any && !c.all_digit && !c.all_alpha && c.has_letter && c.no_lower ==> label_of(c) == Some(
            "uppercase only (no lowercase)"@,
        ),
        c.any && !c.all_digit && !c.all_alpha && c.has_letter && !c.no_lower && c.no_upper
            ==> label_of(c) == Some("lowercase only (no uppercase)"@),
        c.any && !c.all_digit && !c.all_alpha && (!c.has_letter || (!c.no_lower && !c.no_upper)) ==> (
        c.all_alnum ==> label_of(c) == Some("alphanumeric only"@)) && (!c.all_alnum && c.all_ascii
            ==> label_of(c) == Some("ASCII only"@)) && (!c.all_alnum && !c.all_ascii ==> label_of(c)
            is None),
{
}

} // verus!
