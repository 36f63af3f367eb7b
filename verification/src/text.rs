//! Text as a sequence of characters: reading it, building it, and the few
//! layouts (decimal numbers, padded columns, joined lists) that reports and
//! messages are made of.

use vstd::prelude::*;

verus! {

/// `String::push` appends one character at the end of the text.
pub assume_specification[ String::push ](s: &mut String, c: char)
    ensures
        final(s)@ == old(s)@.push(c),
;

/// The texts that a list of strings holds.
pub open spec fn texts(v: Seq<String>) -> Seq<Seq<char>> {
    Seq::new(v.len(), |i: int| v[i]@)
}

/// The characters of a text, in order.
pub fn chars_of(s: &str) -> (out: Vec<char>)
    ensures
        out@ == s@,
{
    let mut out: Vec<char> = Vec::new();
    for c in it: s.chars()
        invariant
            out@ == it.seq().take(it.index()),
            it.seq() == s@,
    {
        out.push(c);
        assert(it.seq().take(it.index() + 1) =~= it.seq().take(it.index()).push(c));
    }
    assert(s@.take(s@.len() as int) =~= s@);
    out
}

/// The text made of the characters from `from` up to `to`.
pub fn slice_text(chars: &[char], from: usize, to: usize) -> (out: String)
    requires
        from <= to <= chars@.len(),
    ensures
        out@ == chars@.subrange(from as int, to as int),
{
    let mut out = String::new();
    let mut i = from;
    while i < to
        invariant
            from <= i <= to <= chars@.len(),
            out@ == chars@.subrange(from as int, i as int),
        decreases to - i,
    {
        out.push(chars[i]);
        assert(chars@.subrange(from as int, i as int + 1) =~= chars@.subrange(
            from as int,
            i as int,
        ).push(chars@[i as int]));
        i += 1;
    }
    out
}

/// Whether two texts are the same.
pub fn same(a: &str, b: &str) -> (out: bool)
    ensures
        out == (a@ == b@),
{
    let mut xs = a.chars();
    let mut ys = b.chars();
    let ghost mut n: int = 0;
    loop
        invariant
            0 <= n <= a@.len(),
            n <= b@.len(),
            vstd::std_specs::iter::IteratorSpec::remaining(&xs) == a@.skip(n),
            vstd::std_specs::iter::IteratorSpec::remaining(&ys) == b@.skip(n),
            a@.take(n) == b@.take(n),
        decreases a@.len() - n,
    {
        let x = xs.next();
        let y = ys.next();
        match (x, y) {
            (Some(c), Some(d)) => {
                if c != d {
                    assert(a@[n] != b@[n]);
                    return false;
                }
                assert(a@.skip(n).drop_first() =~= a@.skip(n + 1));
                assert(b@.skip(n).drop_first() =~= b@.skip(n + 1));
                assert(a@.take(n + 1) =~= a@.take(n).push(c));
                assert(b@.take(n + 1) =~= b@.take(n).push(d));
            },
            (None, None) => {
                assert(a@.take(n) =~= a@);
                assert(b@.take(n) =~= b@);
                return true;
            },
            _ => {
                return false;
            },
        }
        proof {
            n = n + 1;
        }
    }
}

/// A decimal digit.
pub open spec fn is_digit(c: char) -> bool {
    '0' <= c <= '9'
}

pub open spec fn is_upper(c: char) -> bool {
    'A' <= c <= 'Z'
}

pub open spec fn is_lower(c: char) -> bool {
    'a' <= c <= 'z'
}

/// An ASCII letter or digit.
pub open spec fn is_alnum(c: char) -> bool {
    is_digit(c) || is_upper(c) || is_lower(c)
}

/// The lower-case form of an ASCII capital; every other character as it is.
pub open spec fn lower(c: char) -> char {
    if is_upper(c) {
        (c as u8 + 32) as char
    } else {
        c
    }
}

/// A text with its ASCII capitals turned to lower case.
pub open spec fn lowered(s: Seq<char>) -> Seq<char> {
    Seq::new(s.len(), |i: int| lower(s[i]))
}

/// The capital of a small ASCII letter; every other character as it is.
pub open spec fn upper(c: char) -> char {
    if is_lower(c) {
        (c as u8 - 32) as char
    } else {
        c
    }
}

/// A text with its small ASCII letters turned to upper case.
pub open spec fn uppered(s: Seq<char>) -> Seq<char> {
    Seq::new(s.len(), |i: int| upper(s[i]))
}

pub fn digit(c: char) -> (out: bool)
    ensures
        out == is_digit(c),
{
    '0' <= c && c <= '9'
}

pub fn alnum(c: char) -> (out: bool)
    ensures
        out == is_alnum(c),
{
    digit(c) || ('A' <= c && c <= 'Z') || ('a' <= c && c <= 'z')
}

pub fn to_lower(c: char) -> (out: char)
    ensures
        out == lower(c),
{
    if 'A' <= c && c <= 'Z' {
        (c as u8 + 32) as char
    } else {
        c
    }
}

/// A text with its ASCII capitals turned to lower case.
pub fn to_lowered(s: &str) -> (out: String)
    ensures
        out@ == lowered(s@),
{
    let mut out = String::new();
    for c in it: s.chars()
        invariant
            out@ == lowered(it.seq().take(it.index())),
            it.seq() == s@,
    {
        out.push(to_lower(c));
        assert(lowered(it.seq().take(it.index() + 1)) =~= lowered(it.seq().take(it.index())).push(
            lower(c),
        ));
    }
    assert(s@.take(s@.len() as int) =~= s@);
    out
}

/// A character with the Unicode property `White_Space`.
pub open spec fn is_space(c: char) -> bool {
    ||| '\u{9}' <= c <= '\u{d}'
    ||| c == ' '
    ||| c == '\u{85}'
    ||| c == '\u{a0}'
    ||| c == '\u{1680}'
    ||| '\u{2000}' <= c <= '\u{200a}'
    ||| c == '\u{2028}'
    ||| c == '\u{2029}'
    ||| c == '\u{202f}'
    ||| c == '\u{205f}'
    ||| c == '\u{3000}'
}

pub fn space(c: char) -> (out: bool)
    ensures
        out == is_space(c),
{
    ('\u{9}' <= c && c <= '\u{d}') || c == ' ' || c == '\u{85}' || c == '\u{a0}' || c == '\u{1680}'
        || ('\u{2000}' <= c && c <= '\u{200a}') || c == '\u{2028}' || c == '\u{2029}' || c
        == '\u{202f}' || c == '\u{205f}' || c == '\u{3000}'
}

/// Where the white space at the start of `s` ends.
pub open spec fn space_end(s: Seq<char>) -> int
    decreases s.len(),
{
    if s.len() > 0 && is_space(s[0]) {
        1 + space_end(s.drop_first())
    } else {
        0
    }
}

/// Where the text of `s` ends, the white space behind it left out.
pub open spec fn text_end(s: Seq<char>) -> int
    decreases s.len(),
{
    if s.len() > 0 && is_space(s.last()) {
        text_end(s.drop_last())
    } else {
        s.len() as int
    }
}

/// `s` without the white space at either end.
pub open spec fn trimmed(s: Seq<char>) -> Seq<char> {
    let t = s.take(text_end(s));
    t.skip(space_end(t))
}

/// The decimal digits of a number, without leading zeros.
pub open spec fn decimal(n: nat) -> Seq<char>
    decreases n,
{
    if n < 10 {
        seq![digit_char(n)]
    } else {
        decimal(n / 10).push(digit_char(n % 10))
    }
}

/// The character of a one-digit number.
pub open spec fn digit_char(d: nat) -> char {
    (48 + d) as char
}

/// A number as decimal digits.
pub fn decimal_text(n: u128) -> (out: String)
    ensures
        out@ == decimal(n as nat),
    decreases n,
{
    if n < 10 {
        let mut out = String::new();
        out.push((48 + n as u8) as char);
        assert(out@ =~= seq![digit_char(n as nat)]);
        out
    } else {
        let mut out = decimal_text(n / 10);
        out.push((48 + (n % 10) as u8) as char);
        out
    }
}

/// `n` times the character `c`.
pub open spec fn repeat(c: char, n: int) -> Seq<char> {
    Seq::new(
        if n < 0 {
            0
        } else {
            n as nat
        },
        |i: int| c,
    )
}

/// `s` filled up with spaces on the right to at least `width` characters.
pub open spec fn pad_right(s: Seq<char>, width: int) -> Seq<char> {
    s + repeat(' ', width - s.len())
}

/// `s` filled up with spaces on the left to at least `width` characters.
pub open spec fn pad_left(s: Seq<char>, width: int) -> Seq<char> {
    repeat(' ', width - s.len()) + s
}

/// As many spaces as `s` lacks characters to be `width` long.
fn filling(s: &str, width: usize) -> (out: String)
    ensures
        out@ == repeat(' ', width - s@.len()),
{
    let n = s.unicode_len();
    let mut out = String::new();
    let mut i = n;
    while i < width
        invariant
            i >= n,
            i <= width || i == n,
            out@ == repeat(' ', i - n),
        decreases width - i,
    {
        out.push(' ');
        i += 1;
        assert(repeat(' ', i - n) =~= repeat(' ', i - n - 1).push(' '));
    }
    assert(n >= width ==> repeat(' ', width - n) =~= repeat(' ', 0));
    out
}

pub fn padded_right(s: &str, width: usize) -> (out: String)
    ensures
        out@ == pad_right(s@, width as int),
{
    let mut out = s.to_owned();
    out.append(filling(s, width).as_str());
    out
}

pub fn padded_left(s: &str, width: usize) -> (out: String)
    ensures
        out@ == pad_left(s@, width as int),
{
    let mut out = filling(s, width);
    out.append(s);
    out
}

/// The texts one after the other, with `sep` between each two.
pub open spec fn joined(parts: Seq<Seq<char>>, sep: Seq<char>) -> Seq<char>
    decreases parts.len(),
{
    if parts.len() == 0 {
        seq![]
    } else if parts.len() == 1 {
        parts[0]
    } else {
        joined(parts.drop_last(), sep) + sep + parts.last()
    }
}

pub fn join(parts: &[String], sep: &str) -> (out: String)
    ensures
        out@ == joined(texts(parts@), sep@),
{
    let mut out = String::new();
    for i in 0..parts.len()
        invariant
            out@ == joined(texts(parts@).take(i as int), sep@),
    {
        let ghost before = texts(parts@).take(i as int);
        let ghost after = texts(parts@).take(i + 1);
        assert(after.drop_last() =~= before);
        if i > 0 {
            out.append(sep);
            out.append(parts[i].as_str());
        } else {
            out = parts[i].clone();
        }
        assert(after.last() == parts@[i as int]@);
    }
    assert(texts(parts@).take(parts@.len() as int) =~= texts(parts@));
    out
}

/// The texts one after the other, each on a line of its own.
pub open spec fn lines(parts: Seq<Seq<char>>) -> Seq<char>
    decreases parts.len(),
{
    if parts.len() == 0 {
        seq![]
    } else {
        (lines(parts.drop_last()) + parts.last()).push('\n')
    }
}

/// How many bytes a text takes.
pub open spec fn byte_len(s: Seq<char>) -> int {
    vstd::utf8::encode_utf8(s).len() as usize as int
}

/// The most bytes that one of the texts takes, and at least `least`.
pub open spec fn widest(names: Seq<Seq<char>>, least: int) -> int
    decreases names.len(),
{
    if names.len() == 0 {
        least
    } else {
        let front = widest(names.drop_last(), least);
        if byte_len(names.last()) > front {
            byte_len(names.last())
        } else {
            front
        }
    }
}

/// A copy of a list of texts.
pub fn copies(items: &[String]) -> (out: Vec<String>)
    ensures
        out@ == items@,
{
    let mut out: Vec<String> = Vec::new();
    for i in 0..items.len()
        invariant
            out@ == items@.take(i as int),
    {
        out.push(items[i].clone());
        assert(items@.take(i + 1) =~= items@.take(i as int).push(items@[i as int]));
    }
    assert(items@.take(items@.len() as int) =~= items@);
    out
}

/// A character is white space exactly if Unicode says so: the control
/// characters from tab to carriage return, the space, and these others.
pub proof fn lemma_white_space(c: char)
    ensures
        is_space(c) <==> {
            let n = c as u32;
            ||| 9 <= n <= 13
            ||| n == 0x20
            ||| n == 0x85
            ||| n == 0xa0
            ||| n == 0x1680
            ||| 0x2000 <= n <= 0x200a
            ||| n == 0x2028
            ||| n == 0x2029
            ||| n == 0x202f
            ||| n == 0x205f
            ||| n == 0x3000
        },
{
}

/// The ASCII digits and letters, and the small letter of each capital.
pub proof fn lemma_ascii(c: char)
    ensures
        is_digit(c) <==> 48 <= c as u32 <= 57,
        is_upper(c) <==> 65 <= c as u32 <= 90,
        is_lower(c) <==> 97 <= c as u32 <= 122,
        is_alnum(c) <==> is_digit(c) || is_upper(c) || is_lower(c),
        lower(c) as u32 == if 65 <= c as u32 <= 90 {
            c as u32 + 32
        } else {
            c as int
        },
{
}

/// Lowering a text lowers each of its characters.
pub proof fn lemma_lowered(s: Seq<char>, i: int)
    requires
        0 <= i < s.len(),
    ensures
        lowered(s).len() == s.len(),
        lowered(s)[i] == lower(s[i]),
{
}

/// Trimming takes off the white space at both ends, whatever it is, and
/// nothing else.
pub proof fn lemma_trimmed(pre: Seq<char>, core: Seq<char>, post: Seq<char>)
    requires
        forall|i: int| 0 <= i < pre.len() ==> is_space(#[trigger] pre[i]),
        forall|i: int| 0 <= i < post.len() ==> is_space(#[trigger] post[i]),
        core.len() > 0 ==> !is_space(core[0]) && !is_space(core.last()),
    ensures
        trimmed(pre + core + post) == core,
{
    let s = pre + core + post;
    if core.len() == 0 {
        lemma_all_space(s);
        assert(s.take(0).skip(0) =~= core);
    } else {
        lemma_text_end(pre + core, post);
        let t = s.take(text_end(s));
        assert(t =~= pre + core);
        lemma_space_end(pre, core);
        assert(t.skip(pre.len() as int) =~= core);
    }
}

proof fn lemma_all_space(s: Seq<char>)
    requires
        forall|i: int| 0 <= i < s.len() ==> is_space(#[trigger] s[i]),
    ensures
        text_end(s) == 0,
    decreases s.len(),
{
    if s.len() > 0 {
        assert(is_space(s[s.len() - 1]));
        lemma_all_space(s.drop_last());
    }
}

proof fn lemma_text_end(core: Seq<char>, post: Seq<char>)
    requires
        core.len() > 0,
        !is_space(core.last()),
        forall|i: int| 0 <= i < post.len() ==> is_space(#[trigger] post[i]),
    ensures
        text_end(core + post) == core.len(),
    decreases post.len(),
{
    let s = core + post;
    if post.len() > 0 {
        assert(is_space(post[post.len() - 1]));
        assert(s.last() == post.last());
        assert(s.drop_last() =~= core + post.drop_last());
        lemma_text_end(core, post.drop_last());
    } else {
        assert(s =~= core);
    }
}

proof fn lemma_space_end(pre: Seq<char>, core: Seq<char>)
    requires
        core.len() > 0,
        !is_space(core[0]),
        forall|i: int| 0 <= i < pre.len() ==> is_space(#[trigger] pre[i]),
    ensures
        space_end(pre + core) == pre.len(),
    decreases pre.len(),
{
    let s = pre + core;
    if pre.len() > 0 {
        assert(s[0] == pre[0]);
        assert(s.drop_first() =~= pre.drop_first() + core);
        lemma_space_end(pre.drop_first(), core);
    } else {
        assert(s =~= core);
    }
}

/// A padded text is as wide as asked or as wide as the text, and holds the
/// text at its own end with spaces beside it.
pub proof fn lemma_padded(s: Seq<char>, width: int)
    ensures
        pad_right(s, width).len() == if s.len() < width {
            width
        } else {
            s.len() as int
        },
        pad_left(s, width).len() == pad_right(s, width).len(),
        pad_right(s, width).take(s.len() as int) == s,
        pad_left(s, width).skip(pad_left(s, width).len() - s.len()) == s,
        forall|i: int|
            s.len() <= i < pad_right(s, width).len() ==> #[trigger] pad_right(s, width)[i] == ' ',
        forall|i: int|
            0 <= i < pad_left(s, width).len() - s.len() ==> #[trigger] pad_left(s, width)[i] == ' ',
{
    assert(pad_right(s, width).take(s.len() as int) =~= s);
    assert(pad_left(s, width).skip(pad_left(s, width).len() - s.len()) =~= s);
}

/// Joining puts the separator between any two neighbours and nowhere else.
pub proof fn lemma_joined(parts: Seq<Seq<char>>, x: Seq<char>, sep: Seq<char>)
    ensures
        joined(seq![], sep) == Seq::<char>::empty(),
        joined(seq![x], sep) == x,
        parts.len() > 0 ==> joined(parts.push(x), sep) == joined(parts, sep) + sep + x,
{
    assert(parts.push(x).drop_last() =~= parts);
}

/// Each part stands on a line of its own, in order.
pub proof fn lemma_lines(parts: Seq<Seq<char>>, x: Seq<char>)
    ensures
        lines(seq![]) == Seq::<char>::empty(),
        lines(parts.push(x)) == lines(parts) + x + seq!['\n'],
{
    assert(parts.push(x).drop_last() =~= parts);
    assert(lines(parts.push(x)) =~= lines(parts) + x + seq!['\n']);
}

/// The widest of some texts is as wide as one of them, or as the least width,
/// and none is wider.
pub proof fn lemma_widest(names: Seq<Seq<char>>, least: int)
    ensures
        widest(names, least) >= least,
        forall|i: int| 0 <= i < names.len() ==> byte_len(#[trigger] names[i]) <= widest(names, least),
        widest(names, least) == least || exists|i: int|
            0 <= i < names.len() && byte_len(#[trigger] names[i]) == widest(names, least),
    decreases names.len(),
{
    if names.len() > 0 {
        let p = names.drop_last();
        lemma_widest(p, least);
        assert forall|i: int| 0 <= i < names.len() implies byte_len(#[trigger] names[i]) <= widest(
            names,
            least,
        ) by {
            if i < p.len() {
                assert(p[i] == names[i]);
            }
        }
        if exists|i: int| 0 <= i < p.len() && byte_len(#[trigger] p[i]) == widest(p, least) {
            let i = choose|i: int| 0 <= i < p.len() && byte_len(#[trigger] p[i]) == widest(p, least);
            assert(names[i] == p[i]);
        }
        assert(names[names.len() - 1] == names.last());
    }
}

/// The decimal digits of a number: one digit for the numbers below ten, and
/// for every other the digits of its tenth with its last digit behind them.
pub proof fn lemma_decimal(n: nat, d: nat)
    requires
        d < 10,
    ensures
        decimal(d) == seq![(48 + d) as char],
        n > 0 ==> decimal(10 * n + d) == decimal(n).push((48 + d) as char),
{
    if n > 0 {
        assert((10 * n + d) / 10 == n);
        assert((10 * n + d) % 10 == d);
    }
}

/// A text is as wide as the bytes of its UTF-8 encoding.
pub proof fn lemma_byte_len(s: Seq<char>)
    ensures
        vstd::utf8::encode_utf8(s).len() <= usize::MAX ==> byte_len(s)
            == vstd::utf8::encode_utf8(s).len(),
{
}

} // verus!
