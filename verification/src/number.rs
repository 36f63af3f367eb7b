//! Decimal literals: their grammar, their digits, and the order of their
//! values, exact at any length.

use crate::text;
use vstd::arithmetic::power::*;
use vstd::prelude::*;

verus! {

/// Where the run of digits that starts at `from` ends.
pub open spec fn digit_end(s: Seq<char>, from: int) -> int
    decreases s.len() - from,
{
    if 0 <= from < s.len() && text::is_digit(s[from]) {
        digit_end(s, from + 1)
    } else {
        from
    }
}

/// A plus or minus sign at `at`.
pub open spec fn signed_at(s: Seq<char>, at: int) -> bool {
    0 <= at < s.len() && (s[at] == '+' || s[at] == '-')
}

/// The parts of a decimal literal: whether it has a minus sign, the digits
/// before and after the dot, and the exponent, if it has one, as its sign and
/// its digits.
#[verifier::ext_equal]
pub struct Literal {
    pub negative: bool,
    pub whole: Seq<char>,
    pub fraction: Seq<char>,
    pub exponent: Option<(bool, Seq<char>)>,
}

/// A text read as an optional sign, digits with at most one dot and at least
/// one digit, and an optional exponent: `e` or `E`, an optional sign, and at
/// least one digit.
pub open spec fn literal(s: Seq<char>) -> Option<Literal> {
    let start: int = if signed_at(s, 0) {
        1
    } else {
        0
    };
    let dot = digit_end(s, start);
    let from = if dot < s.len() && s[dot] == '.' {
        dot + 1
    } else {
        dot
    };
    let end = if from > dot {
        digit_end(s, from)
    } else {
        dot
    };
    let whole = s.subrange(start, dot);
    let fraction = s.subrange(from, end);
    let negative = signed_at(s, 0) && s[0] == '-';
    if whole.len() + fraction.len() == 0 {
        None
    } else if end == s.len() {
        Some(Literal { negative, whole, fraction, exponent: None })
    } else if s[end] == 'e' || s[end] == 'E' {
        let first = if signed_at(s, end + 1) {
            end + 2
        } else {
            end + 1
        };
        if first < s.len() && digit_end(s, first) == s.len() {
            Some(
                Literal {
                    negative,
                    whole,
                    fraction,
                    exponent: Some(
                        (signed_at(s, end + 1) && s[end + 1] == '-', s.skip(first)),
                    ),
                },
            )
        } else {
            None
        }
    } else {
        None
    }
}

/// The number that a run of digits stands for.
pub open spec fn digits_value(d: Seq<char>) -> nat
    decreases d.len(),
{
    if d.len() == 0 {
        0
    } else {
        10 * digits_value(d.drop_last()) + (d.last() as nat - 48) as nat
    }
}

/// The number that signed digits stand for.
pub open spec fn signed_value(negative: bool, d: Seq<char>) -> int {
    if negative {
        -(digits_value(d) as int)
    } else {
        digits_value(d) as int
    }
}

impl Literal {
    /// All digits of the literal, those after the dot behind those before it.
    pub open spec fn digits(self) -> Seq<char> {
        self.whole + self.fraction
    }

    /// The literal's value is `mantissa` times ten to the `scale`.
    pub open spec fn mantissa(self) -> int {
        signed_value(self.negative, self.digits())
    }

    pub open spec fn scale(self) -> int {
        let e = match self.exponent {
            Some((negative, d)) => signed_value(negative, d),
            None => 0,
        };
        e - self.fraction.len()
    }

    pub open spec fn wf(self) -> bool {
        &&& all_digits(self.whole)
        &&& all_digits(self.fraction)
        &&& self.exponent matches Some((_, d)) ==> all_digits(d)
    }
}

pub open spec fn all_digits(d: Seq<char>) -> bool {
    forall|i: int| 0 <= i < d.len() ==> text::is_digit(#[trigger] d[i])
}

/// Ten to a power that is not negative.
pub open spec fn ten(e: int) -> int {
    pow(10, e as nat)
}

/// The value of `mantissa` times ten to the `scale`, counted in units of ten
/// to the `unit`.
pub open spec fn scaled(mantissa: int, scale: int, unit: int) -> int {
    mantissa * ten(scale - unit)
}

/// Whether the value of the first literal is less than that of the second.
pub open spec fn less(a: Literal, b: Literal) -> bool {
    let unit = if a.scale() < b.scale() {
        a.scale()
    } else {
        b.scale()
    };
    scaled(a.mantissa(), a.scale(), unit) < scaled(b.mantissa(), b.scale(), unit)
}

/// Whether a text is a decimal literal.
pub open spec fn numeric(s: Seq<char>) -> bool {
    literal(s) is Some
}

/// Whether both texts are decimal literals and the first has the lesser
/// value.
pub open spec fn numeric_less(a: Seq<char>, b: Seq<char>) -> bool {
    numeric(a) && numeric(b) && less(literal(a)->0, literal(b)->0)
}

/// A decimal literal, taken apart.
pub struct Number {
    pub negative: bool,
    pub whole: Vec<char>,
    pub fraction: Vec<char>,
    pub exponent: Option<(bool, Vec<char>)>,
}

impl View for Number {
    type V = Literal;

    open spec fn view(&self) -> Literal {
        Literal {
            negative: self.negative,
            whole: self.whole@,
            fraction: self.fraction@,
            exponent: match self.exponent {
                Some((negative, d)) => Some((negative, d@)),
                None => None,
            },
        }
    }
}

/// A run of digits ends within the text and holds digits only.
pub proof fn lemma_digit_end(s: Seq<char>, from: int)
    requires
        0 <= from <= s.len(),
    ensures
        from <= digit_end(s, from) <= s.len(),
        all_digits(s.subrange(from, digit_end(s, from))),
    decreases s.len() - from,
{
    if from < s.len() && text::is_digit(s[from]) {
        lemma_digit_end(s, from + 1);
        let e = digit_end(s, from);
        let d = s.subrange(from, e);
        let r = s.subrange(from + 1, e);
        assert forall|i: int| 0 <= i < d.len() implies text::is_digit(#[trigger] d[i]) by {
            if i > 0 {
                assert(d[i] == r[i - 1]);
            }
        }
    }
}

/// Where the run of digits that starts at `from` ends.
fn run_end(chars: &Vec<char>, from: usize) -> (out: usize)
    requires
        from <= chars@.len(),
    ensures
        out == digit_end(chars@, from as int),
        from <= out <= chars@.len(),
        all_digits(chars@.subrange(from as int, out as int)),
{
    let mut i = from;
    while i < chars.len() && text::digit(chars[i])
        invariant
            from <= i <= chars@.len(),
            digit_end(chars@, i as int) == digit_end(chars@, from as int),
        decreases chars@.len() - i,
    {
        i += 1;
    }
    proof {
        lemma_digit_end(chars@, from as int);
    }
    i
}

/// The characters from `from` up to `to`.
fn part(chars: &Vec<char>, from: usize, to: usize) -> (out: Vec<char>)
    requires
        from <= to <= chars@.len(),
    ensures
        out@ == chars@.subrange(from as int, to as int),
{
    let mut out: Vec<char> = Vec::new();
    let mut i = from;
    while i < to
        invariant
            from <= i <= to <= chars@.len(),
            out@ == chars@.subrange(from as int, i as int),
        decreases to - i,
    {
        out.push(chars[i]);
        assert(chars@.subrange(from as int, i as int + 1) =~= chars@.subrange(
            from as int,
            i as int,
        ).push(chars@[i as int]));
        i += 1;
    }
    out
}

fn sign_at(chars: &Vec<char>, at: usize) -> (out: bool)
    ensures
        out == signed_at(chars@, at as int),
{
    at < chars.len() && (chars[at] == '+' || chars[at] == '-')
}

/// Take a decimal literal apart.
pub fn read(s: &str) -> (out: Option<Number>)
    ensures
        match out {
            Some(n) => literal(s@) == Some(n@) && n@.wf(),
            None => literal(s@) is None,
        },
{
    let chars = text::chars_of(s);
    let len = chars.len();
    let signed = sign_at(&chars, 0);
    let start: usize = if signed {
        1
    } else {
        0
    };
    let negative = signed && chars[0] == '-';
    let dot = run_end(&chars, start);
    let from = if dot < len && chars[dot] == '.' {
        dot + 1
    } else {
        dot
    };
    let end = if from > dot {
        run_end(&chars, from)
    } else {
        dot
    };
    let whole = part(&chars, start, dot);
    let fraction = part(&chars, from, end);
    if whole.len() == 0 && fraction.len() == 0 {
        return None;
    }
    if end == len {
        return Some(Number { negative, whole, fraction, exponent: None });
    }
    if chars[end] != 'e' && chars[end] != 'E' {
        return None;
    }
    let exponent_signed = sign_at(&chars, end + 1);
    let first = if exponent_signed {
        end + 2
    } else {
        end + 1
    };
    if first >= len || run_end(&chars, first) != len {
        return None;
    }
    let exponent_negative = exponent_signed && chars[end + 1] == '-';
    assert(s@.skip(first as int) =~= s@.subrange(first as int, len as int));
    Some(
        Number {
            negative,
            whole,
            fraction,
            exponent: Some((exponent_negative, part(&chars, first, len))),
        },
    )
}

/// Digits taken apart at `n` stand for the front times a power of ten plus
/// the rest.
proof fn lemma_split(d: Seq<char>, n: int)
    requires
        0 <= n <= d.len(),
    ensures
        digits_value(d) == digits_value(d.take(n)) * ten(d.len() - n) + digits_value(d.skip(n)),
    decreases d.len() - n,
{
    if n == d.len() {
        assert(d.take(n) =~= d);
        assert(d.skip(n).len() == 0);
        lemma_pow0(10);
    } else {
        let p = d.drop_last();
        lemma_split(p, n);
        assert(p.take(n) =~= d.take(n));
        assert(p.skip(n) =~= d.skip(n).drop_last());
        assert(d.skip(n).last() == d.last());
        lemma_pow_adds(10, (p.len() - n) as nat, 1);
        lemma_pow1(10);
        let a = digits_value(d.take(n)) as int;
        let k = ten(p.len() - n);
        assert(10 * (a * k) == a * (k * 10)) by (nonlinear_arith);
    }
}

/// A run of digits stands for less than ten to its length.
pub proof fn lemma_bound(d: Seq<char>)
    requires
        all_digits(d),
    ensures
        digits_value(d) < ten(d.len() as int),
    decreases d.len(),
{
    if d.len() == 0 {
        lemma_pow0(10);
    } else {
        let p = d.drop_last();
        assert forall|i: int| 0 <= i < p.len() implies text::is_digit(#[trigger] p[i]) by {
            assert(p[i] == d[i]);
        }
        lemma_bound(p);
        lemma_pow_adds(10, p.len(), 1);
        lemma_pow1(10);
        assert(text::is_digit(d[d.len() - 1]));
    }
}

/// Zeros at the front do not count.
pub proof fn lemma_leading(d: Seq<char>, n: int)
    requires
        0 <= n <= d.len(),
        forall|i: int| 0 <= i < n ==> #[trigger] d[i] == '0',
    ensures
        digits_value(d) == digits_value(d.skip(n)),
{
    lemma_zeros(d.take(n));
    lemma_split(d, n);
    let k = ten(d.len() - n);
    assert(0 * k == 0);
}

proof fn lemma_zeros(d: Seq<char>)
    requires
        forall|i: int| 0 <= i < d.len() ==> #[trigger] d[i] == '0',
    ensures
        digits_value(d) == 0,
    decreases d.len(),
{
    if d.len() > 0 {
        lemma_zeros(d.drop_last());
    }
}

/// `d` with zeros behind it, `n` digits in all.
spec fn filled(d: Seq<char>, n: int) -> Seq<char> {
    d + text::repeat('0', n - d.len())
}

/// Each zero at the end counts for a factor of ten.
proof fn lemma_filled(d: Seq<char>, n: int)
    requires
        d.len() <= n,
    ensures
        digits_value(filled(d, n)) == digits_value(d) * ten(n - d.len()),
{
    let f = filled(d, n);
    lemma_split(f, d.len() as int);
    assert(f.take(d.len() as int) =~= d);
    assert(f.skip(d.len() as int) =~= text::repeat('0', n - d.len()));
    lemma_zeros(f.skip(d.len() as int));
}

/// Digits that begin with something else than zero stand for at least the
/// power of ten of their length less one.
pub proof fn lemma_low(d: Seq<char>)
    requires
        all_digits(d),
        d.len() > 0,
        d[0] != '0',
    ensures
        digits_value(d) >= ten(d.len() - 1),
{
    lemma_split(d, 1);
    let one = d.take(1);
    assert(one.drop_last().len() == 0);
    assert(digits_value(one.drop_last()) == 0);
    assert(text::is_digit(d[0]));
    assert(digits_value(one) >= 1);
    let v = digits_value(one) as int;
    let k = ten(d.len() - 1);
    lemma_pow_positive(10, (d.len() - 1) as nat);
    assert(v * k >= k) by (nonlinear_arith)
        requires
            v >= 1,
            k > 0,
    ;
}

/// A value counted in a smaller unit.
proof fn lemma_unit(m: int, scale: int, unit: int, smaller: int)
    requires
        smaller <= unit <= scale,
    ensures
        scaled(m, scale, smaller) == scaled(m, scale, unit) * ten(unit - smaller),
{
    lemma_pow_adds(10, (scale - unit) as nat, (unit - smaller) as nat);
    let a = ten(scale - unit);
    let b = ten(unit - smaller);
    assert(m * (a * b) == (m * a) * b) by (nonlinear_arith);
}

/// The order of two values does not depend on the unit.
proof fn lemma_less_in(a: Literal, b: Literal, unit: int)
    requires
        unit <= a.scale(),
        unit <= b.scale(),
    ensures
        less(a, b) == (scaled(a.mantissa(), a.scale(), unit) < scaled(
            b.mantissa(),
            b.scale(),
            unit,
        )),
{
    let common = if a.scale() < b.scale() {
        a.scale()
    } else {
        b.scale()
    };
    lemma_unit(a.mantissa(), a.scale(), common, unit);
    lemma_unit(b.mantissa(), b.scale(), common, unit);
    let x = scaled(a.mantissa(), a.scale(), common);
    let y = scaled(b.mantissa(), b.scale(), common);
    let k = ten(common - unit);
    lemma_pow_positive(10, (common - unit) as nat);
    assert((x < y) == (x * k < y * k)) by (nonlinear_arith)
        requires
            k > 0,
    ;
}

/// No literal is less than itself.
pub proof fn lemma_less_irreflexive(a: Literal)
    ensures
        !less(a, a),
{
}

/// The order of values is transitive, also through a literal of equal value.
pub proof fn lemma_less_transitive(a: Literal, b: Literal, c: Literal)
    ensures
        less(a, b) && less(b, c) ==> less(a, c),
        less(a, b) && !less(c, b) ==> less(a, c),
        !less(b, a) && less(b, c) ==> less(a, c),
        !less(b, a) && !less(c, b) ==> !less(c, a),
{
    let ab = if a.scale() < b.scale() {
        a.scale()
    } else {
        b.scale()
    };
    let unit = if ab < c.scale() {
        ab
    } else {
        c.scale()
    };
    lemma_less_in(a, b, unit);
    lemma_less_in(b, a, unit);
    lemma_less_in(b, c, unit);
    lemma_less_in(c, b, unit);
    lemma_less_in(a, c, unit);
    lemma_less_in(c, a, unit);
}

/// Which of two magnitudes is less, by where their first digits stand.
proof fn lemma_positions(s: Seq<char>, x: int, t: Seq<char>, y: int, unit: int)
    requires
        all_digits(s),
        all_digits(t),
        s.len() > 0,
        t.len() > 0,
        s[0] != '0',
        t[0] != '0',
        unit <= x,
        unit <= y,
        s.len() + x < t.len() + y,
    ensures
        scaled(digits_value(s) as int, x, unit) < scaled(digits_value(t) as int, y, unit),
{
    lemma_bound(s);
    lemma_low(t);
    let a = digits_value(s) as int;
    let b = digits_value(t) as int;
    let p = ten(x - unit);
    let q = ten(y - unit);
    lemma_pow_positive(10, (x - unit) as nat);
    lemma_pow_positive(10, (y - unit) as nat);
    lemma_pow_adds(10, s.len(), (x - unit) as nat);
    lemma_pow_adds(10, (t.len() - 1) as nat, (y - unit) as nat);
    let hi = ten(s.len() as int);
    let lo = ten(t.len() - 1);
    assert(a * p < hi * p) by (nonlinear_arith)
        requires
            a < hi,
            p > 0,
    ;
    assert(lo * q <= b * q) by (nonlinear_arith)
        requires
            lo <= b,
            q > 0,
    ;
    lemma_pow_increases(10, (s.len() + x - unit) as nat, (t.len() - 1 + y - unit) as nat);
}

/// Which of two runs of digits of one length stands for less, by the first
/// digit in which they differ.
proof fn lemma_first_difference(s: Seq<char>, t: Seq<char>, n: int)
    requires
        all_digits(s),
        all_digits(t),
        s.len() == t.len(),
        0 <= n < s.len(),
        s.take(n) == t.take(n),
        s[n] < t[n],
    ensures
        digits_value(s) < digits_value(t),
{
    lemma_split(s, n + 1);
    lemma_split(t, n + 1);
    let u = s.take(n + 1);
    let v = t.take(n + 1);
    assert(u.drop_last() =~= s.take(n));
    assert(v.drop_last() =~= t.take(n));
    assert(text::is_digit(s[n]) && text::is_digit(t[n]));
    assert(digits_value(u) + 1 <= digits_value(v));
    let r = s.skip(n + 1);
    assert forall|i: int| 0 <= i < r.len() implies text::is_digit(#[trigger] r[i]) by {
        assert(r[i] == s[n + 1 + i]);
    }
    lemma_bound(r);
    let k = ten(s.len() - n - 1);
    let a = digits_value(u) as int;
    let b = digits_value(v) as int;
    lemma_pow_positive(10, (s.len() - n - 1) as nat);
    assert(a * k + k <= b * k) by (nonlinear_arith)
        requires
            a + 1 <= b,
            k > 0,
    ;
}

/// The digits of a number without the zeros at the front.
fn significant(n: &Number) -> (out: Vec<char>)
    requires
        n@.wf(),
    ensures
        all_digits(out@),
        out@.len() > 0 ==> out@[0] != '0',
        digits_value(out@) == digits_value(n@.digits()),
        out@.len() <= n@.digits().len(),
        out@.len() == 0 <==> digits_value(n@.digits()) == 0,
        n@.digits().len() <= n.whole@.len() + n.fraction@.len(),
{
    let ghost d = n@.digits();
    let whole = n.whole.len();
    let mut out: Vec<char> = Vec::new();
    let mut i: usize = 0;
    let ghost mut z: int = 0;
    while i < n.whole.len()
        invariant
            d == n@.digits(),
            n@.wf(),
            whole == n.whole@.len(),
            0 <= z <= i <= whole,
            out@ == d.subrange(z, i as int),
            forall|k: int| 0 <= k < z ==> #[trigger] d[k] == '0',
            out@.len() == 0 ==> z == i,
            out@.len() > 0 ==> out@[0] != '0',
            all_digits(out@),
        decreases whole - i,
    {
        let c = n.whole[i];
        assert(d[i as int] == c);
        assert(text::is_digit(n@.whole[i as int]));
        if out.len() > 0 || c != '0' {
            let ghost was = out@;
            out.push(c);
            assert(out@ =~= d.subrange(z, i as int + 1));
            assert forall|k: int| 0 <= k < out@.len() implies text::is_digit(
                #[trigger] out@[k],
            ) by {
                if k < was.len() {
                    assert(out@[k] == was[k]);
                }
            }
        } else {
            proof {
                z = z + 1;
            }
            assert(out@ =~= d.subrange(z, i as int + 1));
        }
        i += 1;
    }
    let mut j: usize = 0;
    while j < n.fraction.len()
        invariant
            d == n@.digits(),
            n@.wf(),
            whole == n.whole@.len(),
            0 <= z <= whole + j,
            j <= n.fraction@.len(),
            out@ == d.subrange(z, whole + j),
            forall|k: int| 0 <= k < z ==> #[trigger] d[k] == '0',
            out@.len() == 0 ==> z == whole + j,
            out@.len() > 0 ==> out@[0] != '0',
            all_digits(out@),
        decreases n.fraction@.len() - j,
    {
        let c = n.fraction[j];
        assert(d[whole + j] == c);
        assert(text::is_digit(n@.fraction[j as int]));
        if out.len() > 0 || c != '0' {
            let ghost was = out@;
            out.push(c);
            assert(out@ =~= d.subrange(z, whole + j + 1));
            assert forall|k: int| 0 <= k < out@.len() implies text::is_digit(
                #[trigger] out@[k],
            ) by {
                if k < was.len() {
                    assert(out@[k] == was[k]);
                }
            }
        } else {
            proof {
                z = z + 1;
            }
            assert(out@ =~= d.subrange(z, whole + j + 1));
        }
        j += 1;
    }
    proof {
        assert(d.len() == whole + j);
        assert(out@ =~= d.skip(z));
        lemma_leading(d, z);
        if out@.len() > 0 {
            lemma_low(out@);
            lemma_pow_positive(10, (out@.len() - 1) as nat);
        }
    }
    out
}

/// `v` held within the bounds that the difference of exponents is counted in.
spec fn held(v: int) -> int {
    if v >= 0x1_0000_0000_0000_0000_0000_0000int {
        0x1_0000_0000_0000_0000_0000_0000int
    } else if v <= -0x1_0000_0000_0000_0000_0000_0000int {
        -0x1_0000_0000_0000_0000_0000_0000int
    } else {
        v
    }
}

/// `d` with zeros before it, `n` digits in all.
spec fn aligned(d: Seq<char>, n: int) -> Seq<char> {
    text::repeat('0', n - d.len()) + d
}

proof fn lemma_aligned(d: Seq<char>, n: int)
    requires
        d.len() <= n,
    ensures
        aligned(d, n).len() == n,
        digits_value(aligned(d, n)) == digits_value(d),
        all_digits(d) ==> all_digits(aligned(d, n)),
{
    let a = aligned(d, n);
    lemma_leading(a, n - d.len());
    assert(a.skip(n - d.len()) =~= d);
}

/// The digit that stands `n - i` places before the end of `d`.
fn digit_at(d: &Vec<char>, n: usize, i: usize) -> (out: i128)
    requires
        d@.len() <= n,
        i < n,
        all_digits(d@),
    ensures
        out == aligned(d@, n as int)[i as int] as int - 48,
        0 <= out <= 9,
{
    let gap = n - d.len();
    if i < gap {
        0
    } else {
        assert(aligned(d@, n as int)[i as int] == d@[i - gap]);
        assert(text::is_digit(d@[i - gap]));
        (d[i - gap] as u8 - 48) as i128
    }
}

/// The difference of two exponents, held within bounds that no count of
/// digits reaches.
fn exponent_difference(a: &Number, b: &Number) -> (out: i128)
    requires
        a@.wf(),
        b@.wf(),
    ensures
        out == held((a@.scale() + a@.fraction.len()) - (b@.scale() + b@.fraction.len())),
{
    let none: Vec<char> = Vec::new();
    let (an, ad): (bool, &Vec<char>) = match &a.exponent {
        Some((negative, d)) => (*negative, d),
        None => (false, &none),
    };
    let (bn, bd): (bool, &Vec<char>) = match &b.exponent {
        Some((negative, d)) => (*negative, d),
        None => (false, &none),
    };
    let n = if ad.len() > bd.len() {
        ad.len()
    } else {
        bd.len()
    };
    let ghost s = aligned(ad@, n as int);
    let ghost t = aligned(bd@, n as int);
    proof {
        lemma_aligned(ad@, n as int);
        lemma_aligned(bd@, n as int);
        assert(digits_value(s.take(0)) == 0);
        assert(digits_value(t.take(0)) == 0);
    }
    let mut out: i128 = 0;
    let mut i: usize = 0;
    while i < n
        invariant
            i <= n,
            ad@.len() <= n,
            bd@.len() <= n,
            all_digits(ad@),
            all_digits(bd@),
            s == aligned(ad@, n as int),
            t == aligned(bd@, n as int),
            s.len() == n,
            t.len() == n,
            out == held(
                signed_value(an, s.take(i as int)) - signed_value(bn, t.take(i as int)),
            ),
        decreases n - i,
    {
        let x = digit_at(ad, n, i);
        let y = digit_at(bd, n, i);
        let dx: i128 = if an {
            -x
        } else {
            x
        };
        let dy: i128 = if bn {
            -y
        } else {
            y
        };
        proof {
            assert(s.take(i + 1).drop_last() =~= s.take(i as int));
            assert(t.take(i + 1).drop_last() =~= t.take(i as int));
            assert(s.take(i + 1).last() == s[i as int]);
            assert(t.take(i + 1).last() == t[i as int]);
        }
        let next: i128 = 10 * out + dx - dy;
        out = if next >= 0x1_0000_0000_0000_0000_0000_0000 {
            0x1_0000_0000_0000_0000_0000_0000
        } else if next <= -0x1_0000_0000_0000_0000_0000_0000 {
            -0x1_0000_0000_0000_0000_0000_0000
        } else {
            next
        };
        i += 1;
    }
    proof {
        assert(s.take(n as int) =~= s);
        assert(t.take(n as int) =~= t);
    }
    out
}

/// Whether a number other than zero is nearer to zero than another.
fn magnitude_less(a: &Number, s: &Vec<char>, b: &Number, t: &Vec<char>) -> (out: bool)
    requires
        a@.wf(),
        b@.wf(),
        all_digits(s@),
        all_digits(t@),
        s@.len() > 0,
        t@.len() > 0,
        s@[0] != '0',
        t@[0] != '0',
    ensures
        forall|unit: int|
            unit <= a@.scale() && unit <= b@.scale() ==> out == (#[trigger] scaled(
                digits_value(s@) as int,
                a@.scale(),
                unit,
            ) < scaled(digits_value(t@) as int, b@.scale(), unit)),
{
    let ghost x = a@.scale();
    let ghost y = b@.scale();
    let d = exponent_difference(a, b);
    let gap: i128 = (s.len() as i128 - a.fraction.len() as i128) - (t.len() as i128
        - b.fraction.len() as i128) + d;
    assert(gap < 0 <==> s@.len() + x < t@.len() + y);
    assert(gap > 0 <==> s@.len() + x > t@.len() + y);
    if gap != 0 {
        proof {
            assert forall|unit: int| unit <= x && unit <= y implies (gap < 0) == (#[trigger] scaled(
                digits_value(s@) as int,
                x,
                unit,
            ) < scaled(digits_value(t@) as int, y, unit)) by {
                if gap < 0 {
                    lemma_positions(s@, x, t@, y, unit);
                } else {
                    lemma_positions(t@, y, s@, x, unit);
                }
            }
        }
        return gap < 0;
    }
    let n = if s.len() > t.len() {
        s.len()
    } else {
        t.len()
    };
    let ghost u = filled(s@, n as int);
    let ghost v = filled(t@, n as int);
    proof {
        lemma_filled(s@, n as int);
        lemma_filled(t@, n as int);
        // With their first digits at one place, the filled digits are both
        // values in the smaller of the two units.
        let low = if x < y {
            x
        } else {
            y
        };
        assert(n - s@.len() == x - low && n - t@.len() == y - low);
        assert forall|unit: int| unit <= x && unit <= y implies (digits_value(u) < digits_value(v))
            == (#[trigger] scaled(digits_value(s@) as int, x, unit) < scaled(
            digits_value(t@) as int,
            y,
            unit,
        )) by {
            lemma_unit(digits_value(s@) as int, x, low, unit);
            lemma_unit(digits_value(t@) as int, y, low, unit);
            let p = digits_value(u) as int;
            let q = digits_value(v) as int;
            let k = ten(low - unit);
            lemma_pow_positive(10, (low - unit) as nat);
            assert((p < q) == (p * k < q * k)) by (nonlinear_arith)
                requires
                    k > 0,
            ;
        }
        assert(all_digits(u) && all_digits(v));
        assert(u.take(0) =~= v.take(0));
    }
    let mut i: usize = 0;
    while i < n
        invariant
            i <= n,
            s@.len() <= n,
            t@.len() <= n,
            u == filled(s@, n as int),
            v == filled(t@, n as int),
            u.len() == n,
            v.len() == n,
            all_digits(u),
            all_digits(v),
            x == a@.scale(),
            y == b@.scale(),
            u.take(i as int) == v.take(i as int),
            forall|unit: int|
                unit <= x && unit <= y ==> (digits_value(u) < digits_value(v)) == (
                #[trigger] scaled(digits_value(s@) as int, x, unit) < scaled(
                    digits_value(t@) as int,
                    y,
                    unit,
                )),
        decreases n - i,
    {
        let c = if i < s.len() {
            s[i]
        } else {
            '0'
        };
        let e = if i < t.len() {
            t[i]
        } else {
            '0'
        };
        assert(u[i as int] == c && v[i as int] == e);
        if c != e {
            proof {
                if c < e {
                    lemma_first_difference(u, v, i as int);
                } else {
                    lemma_first_difference(v, u, i as int);
                }
            }
            return c < e;
        }
        assert(u.take(i + 1) =~= u.take(i as int).push(c));
        assert(v.take(i + 1) =~= v.take(i as int).push(e));
        i += 1;
    }
    proof {
        assert(u.take(n as int) =~= u);
        assert(v.take(n as int) =~= v);
    }
    false
}

/// Whether the value of the first literal is less than that of the second.
pub fn number_less(a: &Number, b: &Number) -> (out: bool)
    requires
        a@.wf(),
        b@.wf(),
    ensures
        out == less(a@, b@),
{
    let s = significant(a);
    let t = significant(b);
    let ghost unit = if a@.scale() < b@.scale() {
        a@.scale()
    } else {
        b@.scale()
    };
    let ghost x = a@.scale();
    let ghost y = b@.scale();
    proof {
        lemma_pow_positive(10, (x - unit) as nat);
        lemma_pow_positive(10, (y - unit) as nat);
        lemma_sign(a@.negative, digits_value(a@.digits()) as int, x, unit);
        lemma_sign(b@.negative, digits_value(b@.digits()) as int, y, unit);
    }
    let a_sign: i8 = if s.len() == 0 {
        0
    } else if a.negative {
        -1
    } else {
        1
    };
    let b_sign: i8 = if t.len() == 0 {
        0
    } else if b.negative {
        -1
    } else {
        1
    };
    if a_sign != b_sign {
        a_sign < b_sign
    } else if a_sign == 0 {
        false
    } else if a_sign > 0 {
        magnitude_less(a, &s, b, &t)
    } else {
        magnitude_less(b, &t, a, &s)
    }
}

/// The sign of a scaled value is that of its mantissa.
proof fn lemma_sign(negative: bool, m: int, scale: int, unit: int)
    requires
        m >= 0,
        unit <= scale,
    ensures
        m == 0 ==> scaled(m, scale, unit) == 0,
        m > 0 ==> scaled(m, scale, unit) > 0,
        scaled(-m, scale, unit) == -scaled(m, scale, unit),
{
    let k = ten(scale - unit);
    lemma_pow_positive(10, (scale - unit) as nat);
    assert((-m) * k == -(m * k)) by (nonlinear_arith);
    assert(m > 0 ==> m * k > 0) by (nonlinear_arith)
        requires
            k > 0,
    ;
}

/// The count that a text stands for: an optional plus sign and digits.
pub open spec fn count(s: Seq<char>) -> Option<nat> {
    let d = if s.len() > 0 && s[0] == '+' {
        s.skip(1)
    } else {
        s
    };
    if d.len() > 0 && all_digits(d) && digits_value(d) <= usize::MAX {
        Some(digits_value(d))
    } else {
        None
    }
}

/// Of two runs of equally many digits the lesser has the lesser digit where
/// they first differ.
pub proof fn lemma_lesser_digit(s: Seq<char>, t: Seq<char>) -> (n: int)
    requires
        all_digits(s),
        all_digits(t),
        s.len() == t.len(),
        digits_value(s) < digits_value(t),
    ensures
        0 <= n < s.len(),
        s.take(n) == t.take(n),
        s[n] < t[n],
{
    assert(s.take(0) =~= t.take(0));
    let n = lemma_difference(s, t, 0);
    if t[n] < s[n] {
        lemma_first_difference(t, s, n);
    }
    n
}

proof fn lemma_difference(s: Seq<char>, t: Seq<char>, from: int) -> (n: int)
    requires
        s.len() == t.len(),
        s != t,
        0 <= from <= s.len(),
        s.take(from) == t.take(from),
    ensures
        from <= n < s.len(),
        s.take(n) == t.take(n),
        s[n] != t[n],
    decreases s.len() - from,
{
    if from == s.len() {
        assert(s.take(from) =~= s && t.take(from) =~= t);
        from
    } else if s[from] != t[from] {
        from
    } else {
        assert(s.take(from + 1) =~= s.take(from).push(s[from]));
        assert(t.take(from + 1) =~= t.take(from).push(t[from]));
        lemma_difference(s, t, from + 1)
    }
}

/// Leaving digits out at the end makes a number no larger.
pub proof fn lemma_value_grows(d: Seq<char>, n: int)
    requires
        0 <= n <= d.len(),
    ensures
        digits_value(d.take(n)) <= digits_value(d),
    decreases d.len() - n,
{
    if n == d.len() {
        assert(d.take(n) =~= d);
    } else {
        let p = d.drop_last();
        lemma_value_grows(p, n);
        assert(p.take(n) =~= d.take(n));
    }
}

/// Read a count.
pub fn read_count(s: &str) -> (out: Option<usize>)
    ensures
        match out {
            Some(n) => count(s@) == Some(n as nat),
            None => count(s@) is None,
        },
{
    let chars = text::chars_of(s);
    let start: usize = if chars.len() > 0 && chars[0] == '+' {
        1
    } else {
        0
    };
    let ghost d = s@.skip(start as int);
    assert(start == 0 ==> d =~= s@);
    if start >= chars.len() {
        return None;
    }
    let mut value: u128 = 0;
    let mut i = start;
    assert(digits_value(d.take(0)) == 0);
    while i < chars.len()
        invariant
            start <= i <= chars@.len(),
            chars@ == s@,
            d == s@.skip(start as int),
            count(s@) matches Some(n) ==> all_digits(d) && digits_value(d) <= usize::MAX,
            value == digits_value(d.take(i - start)),
            value <= usize::MAX,
            all_digits(d.take(i - start)),
        decreases chars@.len() - i,
    {
        let c = chars[i];
        assert(d[i - start] == c);
        if !text::digit(c) {
            return None;
        }
        let ghost t = d.take(i + 1 - start);
        proof {
            assert(t.drop_last() =~= d.take(i - start));
            assert(t.last() == c);
            assert forall|k: int| 0 <= k < t.len() implies text::is_digit(#[trigger] t[k]) by {
                if k < t.len() - 1 {
                    assert(t[k] == d.take(i - start)[k]);
                }
            }
        }
        value = 10 * value + (c as u8 - 48) as u128;
        if value > usize::MAX as u128 {
            proof {
                lemma_value_grows(d, i + 1 - start);
            }
            return None;
        }
        i += 1;
    }
    assert(d.take(i - start) =~= d);
    Some(value as usize)
}

/// A run of digits up to the end of the text ends there.
pub proof fn lemma_digit_end_all(s: Seq<char>, from: int)
    requires
        0 <= from <= s.len(),
        forall|i: int| from <= i < s.len() ==> text::is_digit(#[trigger] s[i]),
    ensures
        digit_end(s, from) == s.len(),
    decreases s.len() - from,
{
    if from < s.len() {
        lemma_digit_end_all(s, from + 1);
    }
}

/// The parts of a literal hold digits only.
pub proof fn lemma_literal_digits(s: Seq<char>)
    requires
        numeric(s),
    ensures
        (literal(s)->0).wf(),
{
    let start: int = if signed_at(s, 0) {
        1
    } else {
        0
    };
    lemma_digit_end(s, start);
    let dot = digit_end(s, start);
    let from = if dot < s.len() && s[dot] == '.' {
        dot + 1
    } else {
        dot
    };
    lemma_digit_end(s, from);
    let end = if from > dot {
        digit_end(s, from)
    } else {
        dot
    };
    if end < s.len() {
        let first = if signed_at(s, end + 1) {
            end + 2
        } else {
            end + 1
        };
        lemma_digit_end(s, first);
        assert(s.skip(first) =~= s.subrange(first, s.len() as int));
    }
}

/// A higher power of ten is no less.
pub proof fn lemma_ten_monotonic(a: int, b: int)
    requires
        0 <= a <= b,
    ensures
        ten(a) <= ten(b),
{
    lemma_pow_increases(10, a as nat, b as nat);
}

/// The number that digits stand for: every further digit counts for itself
/// and makes those before it ten times as much.
pub proof fn lemma_digits_value(d: Seq<char>, c: char)
    requires
        text::is_digit(c),
    ensures
        digits_value(seq![]) == 0,
        digits_value(d.push(c)) == 10 * digits_value(d) + (c as int - 48),
{
    assert(d.push(c).drop_last() =~= d);
}

proof fn lemma_digit_run(s: Seq<char>, from: int, to: int)
    requires
        0 <= from <= to <= s.len(),
        forall|i: int| from <= i < to ==> text::is_digit(#[trigger] s[i]),
        to < s.len() ==> !text::is_digit(s[to]),
    ensures
        digit_end(s, from) == to,
    decreases to - from,
{
    if from < to {
        lemma_digit_run(s, from + 1, to);
    }
}

/// Digits are the characters from 0 to 9.
pub proof fn lemma_all_digits(d: Seq<char>)
    ensures
        all_digits(d) <==> forall|i: int|
            0 <= i < d.len() ==> 48 <= (#[trigger] d[i]) as int <= 57,
{
    if forall|i: int| 0 <= i < d.len() ==> 48 <= (#[trigger] d[i]) as int <= 57 {
        assert forall|i: int| 0 <= i < d.len() implies text::is_digit(#[trigger] d[i]) by {}
    }
    if all_digits(d) {
        assert forall|i: int| 0 <= i < d.len() implies 48 <= (#[trigger] d[i]) as int <= 57 by {
            assert(text::is_digit(d[i]));
        }
    }
}

/// A sign: none, a plus or a minus.
pub open spec fn is_sign(sign: Seq<char>) -> bool {
    sign.len() == 0 || sign == seq!['+'] || sign == seq!['-']
}


/// Whatever is written as a sign, digits, perhaps a dot and more digits, at
/// least one digit in all, is a literal of just these parts.
pub proof fn lemma_plain_literal(
    sign: Seq<char>,
    whole: Seq<char>,
    dot: bool,
    fraction: Seq<char>,
)
    requires
        is_sign(sign),
        all_digits(whole),
        all_digits(fraction),
        whole.len() + fraction.len() > 0,
        fraction.len() > 0 ==> dot,
    ensures
        literal(
            sign + whole + (if dot {
                seq!['.']
            } else {
                seq![]
            }) + fraction,
        ) == Some(
            Literal { negative: sign == seq!['-'], whole, fraction, exponent: None },
        ),
{
    let point = if dot {
        seq!['.']
    } else {
        seq![]
    };
    let s = sign + whole + point + fraction;
    lemma_literal_front(s, sign, whole, dot, fraction, seq![]);
}

/// The same with an exponent behind it: a mark, a sign and digits.
pub proof fn lemma_scientific_literal(
    sign: Seq<char>,
    whole: Seq<char>,
    dot: bool,
    fraction: Seq<char>,
    mark: char,
    power_sign: Seq<char>,
    power: Seq<char>,
)
    requires
        is_sign(sign),
        all_digits(whole),
        all_digits(fraction),
        whole.len() + fraction.len() > 0,
        fraction.len() > 0 ==> dot,
        mark == 'e' || mark == 'E',
        is_sign(power_sign),
        all_digits(power),
        power.len() > 0,
    ensures
        literal(
            sign + whole + (if dot {
                seq!['.']
            } else {
                seq![]
            }) + fraction + (seq![mark] + power_sign + power),
        ) == Some(
            Literal {
                negative: sign == seq!['-'],
                whole,
                fraction,
                exponent: Some((power_sign == seq!['-'], power)),
            },
        ),
{
    let point = if dot {
        seq!['.']
    } else {
        seq![]
    };
    let tail = seq![mark] + power_sign + power;
    let s = sign + whole + point + fraction + tail;
    let end = (sign.len() + whole.len() + point.len() + fraction.len()) as int;
    lemma_literal_front(s, sign, whole, dot, fraction, tail);
    assert(s[end] == tail[0]);
    let first = end + 1 + power_sign.len();
    assert(power_sign.len() == 1 ==> s[end + 1] == power_sign[0]);
    assert(power_sign.len() == 0 ==> s[end + 1] == power[0]);
    assert(text::is_digit(power[0]));
    assert(signed_at(s, end + 1) == (power_sign.len() == 1));
    assert forall|i: int| first <= i < s.len() implies text::is_digit(#[trigger] s[i]) by {
        assert(s[i] == power[i - first]);
    }
    lemma_digit_run(s, first, s.len() as int);
    assert(s.skip(first) =~= power);
}

/// The parts that a literal's front is read into.
proof fn lemma_literal_front(
    s: Seq<char>,
    sign: Seq<char>,
    whole: Seq<char>,
    dot: bool,
    fraction: Seq<char>,
    tail: Seq<char>,
)
    requires
        is_sign(sign),
        all_digits(whole),
        all_digits(fraction),
        whole.len() + fraction.len() > 0,
        fraction.len() > 0 ==> dot,
        tail.len() > 0 ==> tail[0] == 'e' || tail[0] == 'E',
        s == sign + whole + (if dot {
            seq!['.']
        } else {
            seq![]
        }) + fraction + tail,
    ensures
        ({
            let start = sign.len() as int;
            let mid = start + whole.len();
            let from = if dot {
                mid + 1
            } else {
                mid
            };
            let end = from + fraction.len();
            &&& signed_at(s, 0) == (sign.len() == 1)
            &&& (signed_at(s, 0) && s[0] == '-') == (sign == seq!['-'])
            &&& digit_end(s, start) == mid
            &&& (mid < s.len() && s[mid] == '.') == dot
            &&& dot ==> digit_end(s, from) == end
            &&& s.subrange(start, mid) == whole
            &&& s.subrange(from, end) == fraction
            &&& end + tail.len() == s.len()
        }),
{
    let start = sign.len() as int;
    let mid = start + whole.len();
    let from = if dot {
        mid + 1
    } else {
        mid
    };
    let end = from + fraction.len();
    assert(sign.len() == 1 ==> s[0] == sign[0]);
    if sign.len() == 0 {
        if whole.len() > 0 {
            assert(s[0] == whole[0]);
            assert(text::is_digit(whole[0]));
        } else {
            assert(s[0] == '.');
        }
        assert(sign =~= seq![]);
    }
    assert forall|i: int| start <= i < mid implies text::is_digit(#[trigger] s[i]) by {
        assert(s[i] == whole[i - start]);
    }
    if dot {
        assert(s[mid] == '.');
    } else if tail.len() > 0 {
        assert(s[mid] == tail[0]);
    }
    lemma_digit_run(s, start, mid);
    assert forall|i: int| from <= i < end implies text::is_digit(#[trigger] s[i]) by {
        assert(s[i] == fraction[i - from]);
    }
    if tail.len() > 0 {
        assert(s[end] == tail[0]);
    }
    lemma_digit_run(s, from, end);
    assert(s.subrange(start, mid) =~= whole);
    assert(s.subrange(from, end) =~= fraction);
}

/// Nothing else is a literal: one is made of its parts, in this order, with a
/// dot or without, and its exponent, if it has one.
#[verifier::rlimit(40)]
pub proof fn lemma_literal_parts(s: Seq<char>)
    ensures
        literal(s) matches Some(n) ==> {
            &&& all_digits(n.whole)
            &&& all_digits(n.fraction)
            &&& n.whole.len() + n.fraction.len() > 0
            &&& exists|sign: Seq<char>, point: Seq<char>, tail: Seq<char>|
                {
                    &&& #[trigger] is_sign(sign)
                    &&& n.negative == (sign == seq!['-'])
                    &&& point == seq!['.'] || (point.len() == 0 && n.fraction.len() == 0)
                    &&& s == sign + n.whole + point + n.fraction + tail
                    &&& #[trigger] tail_of(tail, n.exponent)
                    &&& #[trigger] point.len() <= 1
                }
        },
{
    if let Some(n) = literal(s) {
        lemma_literal_digits(s);
        let start: int = if signed_at(s, 0) {
            1
        } else {
            0
        };
        lemma_digit_end(s, start);
        let dot = digit_end(s, start);
        let from = if dot < s.len() && s[dot] == '.' {
            dot + 1
        } else {
            dot
        };
        lemma_digit_end(s, from);
        let end = if from > dot {
            digit_end(s, from)
        } else {
            dot
        };
        let sign = s.take(start);
        let point = s.subrange(dot, from);
        let tail = s.skip(end);
        if start == 1 {
            assert(sign =~= seq![s[0]]);
        } else {
            assert(sign =~= seq![]);
        }
        if from > dot {
            assert(point =~= seq!['.']);
        } else {
            assert(point =~= seq![]);
        }
        assert(s =~= sign + n.whole + point + n.fraction + tail);
        if end < s.len() {
            let first = if signed_at(s, end + 1) {
                end + 2
            } else {
                end + 1
            };
            let power_sign = s.subrange(end + 1, first);
            if signed_at(s, end + 1) {
                assert(power_sign =~= seq![s[end + 1]]);
            } else {
                assert(power_sign =~= seq![]);
            }
            assert(tail =~= seq![s[end]] + power_sign + s.skip(first));
            assert(tail[0] == s[end]);
            assert(is_sign(power_sign));
            assert(tail_of(tail, n.exponent));
        } else {
            assert(tail =~= seq![]);
            assert(tail_of(tail, n.exponent));
        }
        assert(is_sign(sign) && tail_of(tail, n.exponent) && point.len() <= 1);
    }
}

/// What stands behind the digits of a literal.
pub open spec fn tail_of(tail: Seq<char>, exponent: Option<(bool, Seq<char>)>) -> bool {
    match exponent {
        None => tail.len() == 0,
        Some((negative, power)) => {
            &&& all_digits(power)
            &&& power.len() > 0
            &&& exists|sign: Seq<char>|
                {
                    &&& #[trigger] is_sign(sign)
                    &&& negative == (sign == seq!['-'])
                    &&& tail == seq!['e'] + sign + power || tail == seq!['E'] + sign + power
                }
        },
    }
}

/// Literals are ordered by value. Counted in any power of ten that is fine
/// enough for both, the one with the lesser count is the lesser, where a
/// literal without an exponent stands for its digits divided by ten for each
/// digit behind the dot, and an exponent multiplies by a power of ten.
pub proof fn lemma_less_by_value(a: Literal, b: Literal, ea: int, eb: int, unit: int)
    requires
        ea == match a.exponent {
            Some((negative, d)) => if negative {
                -(digits_value(d) as int)
            } else {
                digits_value(d) as int
            },
            None => 0,
        },
        eb == match b.exponent {
            Some((negative, d)) => if negative {
                -(digits_value(d) as int)
            } else {
                digits_value(d) as int
            },
            None => 0,
        },
        unit <= ea - a.fraction.len(),
        unit <= eb - b.fraction.len(),
    ensures
        less(a, b) <==> {
            let x = digits_value(a.whole + a.fraction) * pow(
                10,
                (ea - a.fraction.len() - unit) as nat,
            );
            let y = digits_value(b.whole + b.fraction) * pow(
                10,
                (eb - b.fraction.len() - unit) as nat,
            );
            (if a.negative {
                -x
            } else {
                x
            }) < (if b.negative {
                -y
            } else {
                y
            })
        },
{
    lemma_less_in(a, b, unit);
    lemma_scaled_sign(a, ea, unit);
    lemma_scaled_sign(b, eb, unit);
}

proof fn lemma_scaled_sign(a: Literal, ea: int, unit: int)
    requires
        a.scale() == ea - a.fraction.len(),
    ensures
        scaled(a.mantissa(), a.scale(), unit) == {
            let x = digits_value(a.whole + a.fraction) * pow(
                10,
                (ea - a.fraction.len() - unit) as nat,
            );
            if a.negative {
                -x
            } else {
                x
            }
        },
{
    let v = digits_value(a.whole + a.fraction) as int;
    let k = pow(10, (ea - a.fraction.len() - unit) as nat);
    assert((-v) * k == -(v * k)) by (nonlinear_arith);
}

/// Texts compare as numbers where both are literals.
pub proof fn lemma_numeric_less(a: Seq<char>, b: Seq<char>)
    ensures
        numeric(a) <==> literal(a) is Some,
        numeric_less(a, b) <==> (literal(a) matches Some(x) && literal(b) matches Some(y) && less(
            x,
            y,
        )),
{
}

/// A count is written as digits, with a plus sign or without; whatever else is
/// written, or is too large, is none.
pub proof fn lemma_count(d: Seq<char>, s: Seq<char>)
    ensures
        d.len() > 0 && all_digits(d) ==> count(d) == if digits_value(d) <= usize::MAX {
            Some(digits_value(d))
        } else {
            None
        },
        d.len() > 0 && all_digits(d) ==> count(seq!['+'] + d) == count(d),
        count(s) is Some ==> exists|e: Seq<char>|
            e.len() > 0 && #[trigger] all_digits(e) && (s == e || s == seq!['+'] + e),
{
    if d.len() > 0 && all_digits(d) {
        assert(text::is_digit(d[0]));
        assert((seq!['+'] + d).skip(1) =~= d);
    }
    if count(s) is Some {
        let e = if s.len() > 0 && s[0] == '+' {
            s.skip(1)
        } else {
            s
        };
        assert(all_digits(e));
        if s[0] == '+' {
            assert(s =~= seq!['+'] + e);
        }
    }
}

/// Ten to a power is the product of that many tens.
pub proof fn lemma_ten(e: nat)
    ensures
        ten(0) == 1,
        ten((e + 1) as int) == 10 * ten(e as int),
{
    lemma_pow0(10);
    lemma_pow_adds(10, 1, e);
    lemma_pow1(10);
}

} // verus!
