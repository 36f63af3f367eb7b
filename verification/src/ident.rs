//! SQL identifiers for CSV headers, and the choice of the key column.

use crate::error::{Error, Fault, Result};
use crate::number;
use crate::order::TextSet;
use crate::text;
use vstd::prelude::*;

verus! {

/// A name in lower case, with one underscore for each run of characters that
/// are neither letters nor digits.
pub open spec fn collapsed(name: Seq<char>) -> Seq<char>
    decreases name.len(),
{
    if name.len() == 0 {
        seq![]
    } else {
        let front = collapsed(name.drop_last());
        let c = name.last();
        if text::is_alnum(c) {
            front.push(text::lower(c))
        } else if front.len() > 0 && front.last() == '_' {
            front
        } else {
            front.push('_')
        }
    }
}

/// `s` without the underscores at its front.
pub open spec fn strip_front(s: Seq<char>) -> Seq<char>
    decreases s.len(),
{
    if s.len() > 0 && s[0] == '_' {
        strip_front(s.drop_first())
    } else {
        s
    }
}

/// `s` without the underscores at its end.
pub open spec fn strip_back(s: Seq<char>) -> Seq<char>
    decreases s.len(),
{
    if s.len() > 0 && s.last() == '_' {
        strip_back(s.drop_last())
    } else {
        s
    }
}

/// The structural column names of the temporal tables.
pub open spec fn reserved(s: Seq<char>) -> bool {
    s == "id"@ || s == "during"@ || s == "request_id"@
}

/// A name as an identifier, before it is told apart from others.
pub open spec fn base_ident(name: Seq<char>, is_attr: bool) -> Seq<char> {
    let s = strip_back(strip_front(collapsed(name)));
    let base = if s.len() == 0 {
        "col"@
    } else if text::is_digit(s[0]) {
        "c_"@ + s
    } else {
        s
    };
    if is_attr && reserved(base) {
        base + "_val"@
    } else {
        base
    }
}

/// An identifier with a number behind it.
pub open spec fn numbered(base: Seq<char>, n: nat) -> Seq<char> {
    base + "_"@ + text::decimal(n)
}

/// The least number from two on that makes an identifier a new one.
pub open spec fn is_free_number(base: Seq<char>, used: Set<Seq<char>>, n: nat) -> bool {
    &&& n >= 2
    &&& !used.contains(numbered(base, n))
    &&& forall|m: nat| 2 <= m < n ==> used.contains(#[trigger] numbered(base, m))
}

/// An identifier for a name that is not used yet: the name's own, or that
/// with the first free number from two on.
pub open spec fn ident_of(name: Seq<char>, used: Set<Seq<char>>, is_attr: bool) -> Seq<char> {
    let base = base_ident(name, is_attr);
    if !used.contains(base) {
        base
    } else {
        numbered(base, choose|n: nat| is_free_number(base, used, n))
    }
}

/// The decimal digits of a number stand for it.
pub proof fn lemma_decimal_digits(n: nat)
    ensures
        number::digits_value(text::decimal(n)) == n,
        number::all_digits(text::decimal(n)),
        text::decimal(n).len() > 0,
    decreases n,
{
    let d = text::decimal(n);
    if n < 10 {
        assert(d.drop_last().len() == 0);
        assert(number::digits_value(d.drop_last()) == 0);
        assert(d.last() == text::digit_char(n));
    } else {
        lemma_decimal_digits(n / 10);
        let p = text::decimal(n / 10);
        assert(d.drop_last() =~= p);
        assert(d.last() == text::digit_char(n % 10));
        assert forall|i: int| 0 <= i < d.len() implies text::is_digit(#[trigger] d[i]) by {
            if i < p.len() {
                assert(d[i] == p[i]);
            }
        }
    }
}

proof fn lemma_numbered_injective(base: Seq<char>, a: nat, b: nat)
    requires
        numbered(base, a) == numbered(base, b),
    ensures
        a == b,
{
    let n = (base + "_"@).len() as int;
    assert(numbered(base, a).skip(n) =~= text::decimal(a));
    assert(numbered(base, b).skip(n) =~= text::decimal(b));
    lemma_decimal_digits(a);
    lemma_decimal_digits(b);
}

/// So many numbers can be taken only where so many identifiers are used.
proof fn lemma_taken(base: Seq<char>, used: Set<Seq<char>>, n: nat)
    requires
        used.finite(),
        n >= 2,
        forall|m: nat| 2 <= m < n ==> used.contains(#[trigger] numbered(base, m)),
    ensures
        n - 2 <= used.len(),
{
    let q = Seq::new((n - 2) as nat, |i: int| numbered(base, (i + 2) as nat));
    assert forall|i: int, j: int| 0 <= i < q.len() && 0 <= j < q.len() && i != j implies q[i]
        != q[j] by {
        if q[i] == q[j] {
            lemma_numbered_injective(base, (i + 2) as nat, (j + 2) as nat);
        }
    }
    q.unique_seq_to_set();
    assert(q.to_set().subset_of(used));
    vstd::set_lib::lemma_len_subset(q.to_set(), used);
}

fn trim_underscores(s: &Vec<char>) -> (out: (usize, usize))
    ensures
        out.0 <= out.1 <= s@.len(),
        s@.subrange(out.0 as int, out.1 as int) == strip_back(strip_front(s@)),
{
    let mut from: usize = 0;
    assert(s@.skip(0) =~= s@);
    while from < s.len() && s[from] == '_'
        invariant
            from <= s@.len(),
            strip_front(s@.skip(from as int)) == strip_front(s@),
        decreases s@.len() - from,
    {
        assert(s@.skip(from as int).drop_first() =~= s@.skip(from + 1));
        from += 1;
    }
    let mut to = s.len();
    let ghost t = s@.skip(from as int);
    assert(strip_front(s@) == t);
    assert(s@.subrange(from as int, to as int) =~= t);
    while from < to && s[to - 1] == '_'
        invariant
            from <= to <= s@.len(),
            strip_back(s@.subrange(from as int, to as int)) == strip_back(t),
        decreases to - from,
    {
        assert(s@.subrange(from as int, to as int).drop_last() =~= s@.subrange(
            from as int,
            to - 1,
        ));
        to -= 1;
    }
    (from, to)
}

fn collapse(name: &str) -> (out: Vec<char>)
    ensures
        out@ == collapsed(name@),
{
    let mut out: Vec<char> = Vec::new();
    for c in it: name.chars()
        invariant
            it.seq() == name@,
            out@ == collapsed(it.seq().take(it.index())),
    {
        proof {
            assert(it.seq().take(it.index() + 1).drop_last() =~= it.seq().take(it.index()));
        }
        if text::alnum(c) {
            out.push(text::to_lower(c));
        } else if out.len() == 0 || out[out.len() - 1] != '_' {
            out.push('_');
        }
    }
    assert(name@.take(name@.len() as int) =~= name@);
    out
}

fn base_of(name: &str, is_attr: bool) -> (out: String)
    ensures
        out@ == base_ident(name@, is_attr),
{
    let chars = collapse(name);
    let (from, to) = trim_underscores(&chars);
    let trimmed = text::slice_text(chars.as_slice(), from, to);
    let mut base = if from == to {
        "col".to_owned()
    } else if text::digit(chars[from]) {
        let mut prefixed = "c_".to_owned();
        prefixed.append(trimmed.as_str());
        prefixed
    } else {
        trimmed
    };
    let b = base.as_str();
    if is_attr && (text::same(b, "id") || text::same(b, "during") || text::same(b, "request_id")) {
        base.append("_val");
    }
    base
}

/// Turn an arbitrary CSV header into a safe, unique snake-case SQL
/// identifier. Attribute identifiers additionally avoid the structural column
/// names of the temporal tables (`id`, `during`, `request_id`).
pub fn sanitize_ident(name: &str, used: &mut TextSet, is_attr: bool) -> (out: String)
    requires
        old(used).wf(),
    ensures
        out@ == ident_of(name@, old(used)@, is_attr),
        final(used).wf(),
        final(used)@ == old(used)@.insert(out@),
{
    let base = base_of(name, is_attr);
    if !used.contains(base.as_str()) {
        used.insert(base.as_str());
        return base;
    }
    let count = used.len();
    let mut n: u128 = 2;
    loop
        invariant
            used.wf(),
            *used == *old(used),
            used@.finite(),
            count == used@.len(),
            base@ == base_ident(name@, is_attr),
            used@.contains(base@),
            2 <= n <= count + 2,
            forall|m: nat| 2 <= m < n ==> used@.contains(#[trigger] numbered(base@, m)),
        decreases count + 2 - n,
    {
        let mut candidate = base.clone();
        candidate.append("_");
        candidate.append(text::decimal_text(n).as_str());
        if !used.contains(candidate.as_str()) {
            proof {
                assert(is_free_number(base@, used@, n as nat));
                let k = choose|k: nat| is_free_number(base@, used@, k);
                assert(is_free_number(base@, used@, k));
                if k < n {
                    assert(used@.contains(numbered(base@, k)));
                } else if n < k {
                    assert(used@.contains(numbered(base@, n as nat)));
                }
            }
            used.insert(candidate.as_str());
            return candidate;
        }
        proof {
            lemma_taken(base@, used@, (n + 1) as nat);
        }
        n += 1;
    }
}

/// A character of an identifier.
pub open spec fn is_ident_char(c: char) -> bool {
    text::is_lower(c) || text::is_digit(c) || c == '_'
}

/// Small letters, digits and underscores only.
pub open spec fn ident_chars(s: Seq<char>) -> bool {
    forall|i: int| 0 <= i < s.len() ==> is_ident_char(#[trigger] s[i])
}

proof fn lemma_collapsed(name: Seq<char>)
    ensures
        ident_chars(collapsed(name)),
    decreases name.len(),
{
    if name.len() > 0 {
        lemma_collapsed(name.drop_last());
    }
}

proof fn lemma_strip_front(s: Seq<char>)
    ensures
        ident_chars(s) ==> ident_chars(strip_front(s)),
        strip_front(s).len() > 0 ==> strip_front(s)[0] != '_',
    decreases s.len(),
{
    if s.len() > 0 && s[0] == '_' {
        lemma_strip_front(s.drop_first());
    }
}

proof fn lemma_strip_back(s: Seq<char>)
    ensures
        ident_chars(s) ==> ident_chars(strip_back(s)),
        strip_back(s).len() > 0 ==> strip_back(s)[0] == s[0],
    decreases s.len(),
{
    if s.len() > 0 && s.last() == '_' {
        lemma_strip_back(s.drop_last());
    }
}

proof fn lemma_base(name: Seq<char>, is_attr: bool)
    ensures
        base_ident(name, is_attr).len() > 0,
        text::is_lower(base_ident(name, is_attr)[0]),
        ident_chars(base_ident(name, is_attr)),
        is_attr ==> !reserved(base_ident(name, is_attr)),
{
    reveal_strlit("col");
    reveal_strlit("c_");
    reveal_strlit("_val");
    reveal_strlit("id");
    reveal_strlit("during");
    reveal_strlit("request_id");
    lemma_collapsed(name);
    lemma_strip_front(collapsed(name));
    lemma_strip_back(strip_front(collapsed(name)));
    let s = strip_back(strip_front(collapsed(name)));
    let base = if s.len() == 0 {
        "col"@
    } else if text::is_digit(s[0]) {
        "c_"@ + s
    } else {
        s
    };
    assert(base.len() > 0 && text::is_lower(base[0]) && ident_chars(base)) by {
        if s.len() > 0 {
            assert(is_ident_char(s[0]));
        }
    }
    if is_attr && reserved(base) {
        let b = base_ident(name, is_attr);
        assert(b == base + "_val"@);
        assert(b[b.len() - 1] == 'l');
        assert(ident_chars(b));
        assert(!reserved(b));
    }
}

/// A small letter, and behind it small letters, digits and underscores only.
pub open spec fn safe(id: Seq<char>) -> bool {
    id.len() > 0 && text::is_lower(id[0]) && ident_chars(id)
}

/// An identifier is safe and unique: it is not used yet, and that of an
/// attribute is no structural column name.
pub proof fn lemma_ident_safe_and_unique(
    name: Seq<char>,
    used: Set<Seq<char>>,
    is_attr: bool,
)
    requires
        used.finite(),
    ensures
        safe(ident_of(name, used, is_attr)),
        !used.contains(ident_of(name, used, is_attr)),
        is_attr ==> !reserved(ident_of(name, used, is_attr)),
{
    let base = base_ident(name, is_attr);
    lemma_base(name, is_attr);
    if used.contains(base) {
        lemma_free_number(base, used, 2);
        let n = choose|n: nat| is_free_number(base, used, n);
        assert(is_free_number(base, used, n));
        let id = numbered(base, n);
        lemma_decimal_digits(n);
        reveal_strlit("_");
        reveal_strlit("id");
        reveal_strlit("during");
        reveal_strlit("request_id");
        let d = text::decimal(n);
        assert forall|i: int| 0 <= i < id.len() implies is_ident_char(#[trigger] id[i]) by {
            if i < base.len() {
                assert(id[i] == base[i]);
            } else if i > base.len() {
                assert(id[i] == d[i - base.len() - 1]);
            }
        }
        assert(id.last() == d.last());
        assert(text::is_digit(d[d.len() - 1]));
        assert(id[0] == base[0]);
    }
}

/// Whether no two underscores stand side by side.
spec fn single(s: Seq<char>) -> bool {
    forall|i: int| 0 < i < s.len() ==> !(s[i - 1] == '_' && #[trigger] s[i] == '_')
}

proof fn lemma_collapsed_single(name: Seq<char>)
    ensures
        single(collapsed(name)),
    decreases name.len(),
{
    if name.len() > 0 {
        lemma_collapsed_single(name.drop_last());
    }
}

proof fn lemma_strip_front_single(s: Seq<char>)
    requires
        single(s),
    ensures
        single(strip_front(s)),
    decreases s.len(),
{
    if s.len() > 0 && s[0] == '_' {
        let rest = s.drop_first();
        assert forall|i: int| 0 < i < rest.len() implies !(rest[i - 1] == '_' && #[trigger] rest[i]
            == '_') by {
            assert(rest[i] == s[i + 1]);
        }
        lemma_strip_front_single(rest);
    }
}

proof fn lemma_strip_back_single(s: Seq<char>)
    requires
        single(s),
    ensures
        single(strip_back(s)),
        strip_back(s).len() > 0 ==> strip_back(s).last() != '_',
    decreases s.len(),
{
    if s.len() > 0 && s.last() == '_' {
        lemma_strip_back_single(s.drop_last());
    }
}

/// An identifier collapses to itself.
proof fn lemma_collapsed_same(s: Seq<char>)
    requires
        ident_chars(s),
        single(s),
    ensures
        collapsed(s) == s,
    decreases s.len(),
{
    if s.len() > 0 {
        let p = s.drop_last();
        assert forall|i: int| 0 <= i < p.len() implies is_ident_char(#[trigger] p[i]) by {
            assert(p[i] == s[i]);
        }
        assert forall|i: int| 0 < i < p.len() implies !(p[i - 1] == '_' && #[trigger] p[i]
            == '_') by {
            assert(p[i] == s[i]);
        }
        lemma_collapsed_same(p);
        assert(is_ident_char(s[s.len() - 1]));
        assert(p.push(s.last()) =~= s);
        if p.len() > 0 && s.last() == '_' {
            assert(!(s[s.len() - 2] == '_' && s[s.len() - 1] == '_'));
        }
    } else {
        assert(collapsed(s) =~= s);
    }
}

proof fn lemma_base_single(name: Seq<char>, is_attr: bool)
    ensures
        single(base_ident(name, is_attr)),
        base_ident(name, is_attr).last() != '_',
{
    reveal_strlit("col");
    reveal_strlit("c_");
    reveal_strlit("_val");
    reveal_strlit("id");
    reveal_strlit("during");
    reveal_strlit("request_id");
    lemma_collapsed_single(name);
    lemma_strip_front_single(collapsed(name));
    lemma_strip_back_single(strip_front(collapsed(name)));
    let s = strip_back(strip_front(collapsed(name)));
    let base = if s.len() == 0 {
        "col"@
    } else if text::is_digit(s[0]) {
        "c_"@ + s
    } else {
        s
    };
    assert forall|i: int| 0 < i < base.len() implies !(base[i - 1] == '_' && #[trigger] base[i]
        == '_') by {
        if s.len() > 0 && text::is_digit(s[0]) {
            if i > 2 {
                assert(base[i] == s[i - 2] && base[i - 1] == s[i - 3]);
            } else if i == 2 {
                assert(base[i] == s[0]);
            }
        }
    }
    if s.len() > 0 && text::is_digit(s[0]) {
        assert(base.last() == s.last());
    }
    assert(single(base) && base.last() != '_');
    let id = base_ident(name, is_attr);
    if is_attr && reserved(base) {
        assert(id == base + "_val"@);
        assert forall|i: int| 0 < i < id.len() implies !(id[i - 1] == '_' && #[trigger] id[i]
            == '_') by {
            if i < base.len() {
                assert(id[i] == base[i] && id[i - 1] == base[i - 1]);
            } else if i == base.len() {
                assert(id[i - 1] == base.last());
            }
        }
        assert(id.last() == 'l');
    }
}

/// An identifier is its own identifier.
pub proof fn lemma_ident_idempotent(name: Seq<char>, is_attr: bool)
    ensures
        ident_of(ident_of(name, Set::empty(), is_attr), Set::empty(), is_attr) == ident_of(
            name,
            Set::empty(),
            is_attr,
        ),
{
    let id = base_ident(name, is_attr);
    lemma_base(name, is_attr);
    lemma_base_single(name, is_attr);
    lemma_collapsed_same(id);
    assert(strip_front(id) == id);
    assert(strip_back(id) == id);
}

/// The identifier of a name does not depend on the case of its ASCII letters.
pub proof fn lemma_ident_ignores_case(name: Seq<char>, used: Set<Seq<char>>, is_attr: bool)
    ensures
        ident_of(text::uppered(name), used, is_attr) == ident_of(name, used, is_attr),
        ident_of(text::lowered(name), used, is_attr) == ident_of(name, used, is_attr),
{
    lemma_collapsed_case(name);
}

proof fn lemma_collapsed_case(name: Seq<char>)
    ensures
        collapsed(text::uppered(name)) == collapsed(name),
        collapsed(text::lowered(name)) == collapsed(name),
    decreases name.len(),
{
    if name.len() > 0 {
        lemma_collapsed_case(name.drop_last());
        assert(text::uppered(name).drop_last() =~= text::uppered(name.drop_last()));
        assert(text::lowered(name).drop_last() =~= text::lowered(name.drop_last()));
    } else {
        assert(text::uppered(name) =~= name);
        assert(text::lowered(name) =~= name);
    }
}

proof fn lemma_free_number(base: Seq<char>, used: Set<Seq<char>>, n: nat)
    requires
        used.finite(),
        n >= 2,
        forall|m: nat| 2 <= m < n ==> used.contains(#[trigger] numbered(base, m)),
    ensures
        exists|k: nat| is_free_number(base, used, k),
    decreases used.len() + 2 - n,
{
    lemma_taken(base, used, n);
    if !used.contains(numbered(base, n)) {
        assert(is_free_number(base, used, n));
    } else {
        lemma_taken(base, used, n + 1);
        lemma_free_number(base, used, n + 1);
    }
}

/// The identifiers that the key column is looked for under, the most likely
/// first.
pub open spec fn preferred() -> Seq<Seq<char>> {
    seq![
        "account_id"@,
        "account_number"@,
        "account"@,
        "acct_id"@,
        "id"@,
        "customer_id"@,
    ]
}

/// The first header with a given name, in any case.
pub open spec fn named(order: Seq<Seq<char>>, name: Seq<char>) -> Option<Seq<char>>
    decreases order.len(),
{
    if order.len() == 0 {
        None
    } else if text::lowered(order[0]) == text::lowered(name) {
        Some(order[0])
    } else {
        named(order.drop_first(), name)
    }
}

/// The first header with a given identifier.
pub open spec fn identified(order: Seq<Seq<char>>, ident: Seq<char>) -> Option<Seq<char>>
    decreases order.len(),
{
    if order.len() == 0 {
        None
    } else if ident_of(order[0], Set::empty(), false) == ident {
        Some(order[0])
    } else {
        identified(order.drop_first(), ident)
    }
}

/// The first header found under one of the identifiers, in their order; the
/// first header, where there is none.
pub open spec fn likely_key(order: Seq<Seq<char>>, idents: Seq<Seq<char>>) -> Seq<char>
    decreases idents.len(),
{
    if idents.len() == 0 {
        order[0]
    } else {
        match identified(order, idents[0]) {
            Some(h) => h,
            None => likely_key(order, idents.drop_first()),
        }
    }
}

/// The header of the key column.
pub open spec fn key_of(order: Seq<Seq<char>>, explicit: Option<Seq<char>>) -> std::result::Result<
    Seq<char>,
    Fault,
> {
    match explicit {
        Some(name) => match named(order, name) {
            Some(h) => Ok(h),
            None => Err(
                Fault::Schema("key column `"@ + name + "` not found in CSV headers"@),
            ),
        },
        None => Ok(likely_key(order, preferred())),
    }
}

fn find_named(order: &[String], name: &str) -> (out: Option<String>)
    ensures
        match out {
            Some(h) => named(text::texts(order@), name@) == Some(h@),
            None => named(text::texts(order@), name@) is None,
        },
{
    let wanted = text::to_lowered(name);
    let ghost all = text::texts(order@);
    assert(all.skip(0) =~= all);
    for i in 0..order.len()
        invariant
            all == text::texts(order@),
            wanted@ == text::lowered(name@),
            named(all, name@) == named(all.skip(i as int), name@),
    {
        assert(all.skip(i as int)[0] == order@[i as int]@);
        if text::same(text::to_lowered(order[i].as_str()).as_str(), wanted.as_str()) {
            return Some(order[i].clone());
        }
        assert(all.skip(i as int).drop_first() =~= all.skip(i + 1));
    }
    None
}

fn find_identified(order: &[String], ident: &str) -> (out: Option<String>)
    ensures
        match out {
            Some(h) => identified(text::texts(order@), ident@) == Some(h@),
            None => identified(text::texts(order@), ident@) is None,
        },
{
    let ghost all = text::texts(order@);
    assert(all.skip(0) =~= all);
    for i in 0..order.len()
        invariant
            all == text::texts(order@),
            identified(all, ident@) == identified(all.skip(i as int), ident@),
    {
        assert(all.skip(i as int)[0] == order@[i as int]@);
        let mut none = TextSet::new();
        if text::same(sanitize_ident(order[i].as_str(), &mut none, false).as_str(), ident) {
            return Some(order[i].clone());
        }
        assert(all.skip(i as int).drop_first() =~= all.skip(i + 1));
    }
    None
}

/// Pick the account natural key. An explicit `--key` wins (matched
/// case-insensitively against the headers); otherwise we look for a header
/// that sanitizes to a familiar account-identifier name, falling back to the
/// first column.
pub fn choose_key(order: &[String], explicit: Option<&str>) -> (out: Result<String>)
    requires
        explicit is None ==> order@.len() > 0,
    ensures
        match out {
            Ok(h) => key_of(
                text::texts(order@),
                match explicit {
                    Some(name) => Some(name@),
                    None => None,
                },
            ) == Ok::<Seq<char>, Fault>(h@),
            Err(e) => key_of(
                text::texts(order@),
                match explicit {
                    Some(name) => Some(name@),
                    None => None,
                },
            ) == Err::<Seq<char>, Fault>(e@),
        },
{
    if let Some(name) = explicit {
        return match find_named(order, name) {
            Some(h) => Ok(h),
            None => {
                let mut message = "key column `".to_owned();
                message.append(name);
                message.append("` not found in CSV headers");
                Err(Error::Schema(message))
            },
        };
    }
    let ghost all = text::texts(order@);
    let wanted: [&str; 6] = [
        "account_id",
        "account_number",
        "account",
        "acct_id",
        "id",
        "customer_id",
    ];
    assert(preferred().skip(0) =~= preferred());
    for k in 0..6usize
        invariant
            explicit is None,
            all == text::texts(order@),
            forall|j: int| 0 <= j < 6 ==> #[trigger] wanted@[j]@ == preferred()[j],
            likely_key(all, preferred()) == likely_key(all, preferred().skip(k as int)),
    {
        let ghost rest = preferred().skip(k as int);
        assert(rest[0] == wanted@[k as int]@);
        if let Some(h) = find_identified(order, wanted[k]) {
            return Ok(h);
        }
        assert(rest.drop_first() =~= preferred().skip(k + 1));
    }
    assert(all[0] == order@[0]@);
    Ok(order[0].clone())
}

/// A name is collapsed from left to right: a letter or digit is kept in lower
/// case, and any other character becomes an underscore unless one stands there
/// already.
pub proof fn lemma_collapsed_step(name: Seq<char>, c: char)
    ensures
        collapsed(seq![]) == Seq::<char>::empty(),
        text::is_alnum(c) ==> collapsed(name.push(c)) == collapsed(name).push(text::lower(c)),
        !text::is_alnum(c) && collapsed(name).len() > 0 && collapsed(name).last() == '_'
            ==> collapsed(name.push(c)) == collapsed(name),
        !text::is_alnum(c) && (collapsed(name).len() == 0 || collapsed(name).last() != '_')
            ==> collapsed(name.push(c)) == collapsed(name).push('_'),
{
    assert(name.push(c).drop_last() =~= name);
}

proof fn lemma_strips(pre: Seq<char>, core: Seq<char>, post: Seq<char>)
    requires
        forall|i: int| 0 <= i < pre.len() ==> #[trigger] pre[i] == '_',
        forall|i: int| 0 <= i < post.len() ==> #[trigger] post[i] == '_',
        core.len() > 0 ==> core[0] != '_' && core.last() != '_',
    ensures
        strip_back(strip_front(pre + core + post)) == core,
    decreases pre.len() + post.len(),
{
    let s = pre + core + post;
    if pre.len() > 0 {
        assert(s[0] == pre[0]);
        assert(s.drop_first() =~= pre.drop_first() + core + post);
        lemma_strips(pre.drop_first(), core, post);
    } else if core.len() == 0 {
        if post.len() > 0 {
            assert(s[0] == post[0]);
            assert(s.drop_first() =~= pre + core + post.drop_first());
            lemma_strips(pre, core, post.drop_first());
        } else {
            assert(s =~= core);
        }
    } else {
        assert(s[0] == core[0]);
        lemma_strip_end(core, post);
        assert(s =~= core + post);
    }
}

proof fn lemma_strip_end(core: Seq<char>, post: Seq<char>)
    requires
        core.len() > 0,
        core.last() != '_',
        forall|i: int| 0 <= i < post.len() ==> #[trigger] post[i] == '_',
    ensures
        strip_back(core + post) == core,
    decreases post.len(),
{
    let s = core + post;
    if post.len() > 0 {
        assert(s.last() == post[post.len() - 1]);
        assert(s.drop_last() =~= core + post.drop_last());
        lemma_strip_end(core, post.drop_last());
    } else {
        assert(s =~= core);
    }
}

/// The identifier of a name is what is left of the collapsed name without the
/// underscores around it: `col` where nothing is left, with `c_` in front
/// where it begins with a digit, and for an attribute with `_val` behind it
/// where it is the name of a structural column.
pub proof fn lemma_ident_of_core(
    name: Seq<char>,
    pre: Seq<char>,
    core: Seq<char>,
    post: Seq<char>,
    is_attr: bool,
)
    requires
        collapsed(name) == pre + core + post,
        forall|i: int| 0 <= i < pre.len() ==> #[trigger] pre[i] == '_',
        forall|i: int| 0 <= i < post.len() ==> #[trigger] post[i] == '_',
        core.len() > 0 ==> core[0] != '_' && core.last() != '_',
    ensures
        core.len() == 0 ==> ident_of(name, Set::empty(), is_attr) == "col"@,
        core.len() > 0 && text::is_digit(core[0]) ==> ident_of(name, Set::empty(), is_attr) == "c_"@
            + core,
        core.len() > 0 && !text::is_digit(core[0]) && is_attr && (core == "id"@ || core
            == "during"@ || core == "request_id"@) ==> ident_of(name, Set::empty(), is_attr) == core
            + "_val"@,
        core.len() > 0 && !text::is_digit(core[0]) && !(is_attr && (core == "id"@ || core
            == "during"@ || core == "request_id"@)) ==> ident_of(name, Set::empty(), is_attr)
            == core,
{
    lemma_strips(pre, core, post);
    reveal_strlit("col");
    reveal_strlit("c_");
    reveal_strlit("id");
    reveal_strlit("during");
    reveal_strlit("request_id");
    assert("col"@.len() == 3);
    assert("id"@[0] == 'i' && "during"@[0] == 'd' && "request_id"@[0] == 'r');
    if core.len() > 0 && text::is_digit(core[0]) {
        assert(("c_"@ + core)[0] == 'c');
    }
    assert("col"@[0] == 'c');
}

/// An identifier that is free is given as it is; otherwise it is given with
/// the first number from two on that makes it a new one.
pub proof fn lemma_ident_numbered(name: Seq<char>, used: Set<Seq<char>>, is_attr: bool)
    requires
        used.finite(),
    ensures
        ({
            let plain = ident_of(name, Set::empty(), is_attr);
            &&& !used.contains(plain) ==> ident_of(name, used, is_attr) == plain
            &&& used.contains(plain) ==> exists|n: nat|
                #![trigger text::decimal(n)]
                {
                    &&& n >= 2
                    &&& ident_of(name, used, is_attr) == plain + "_"@ + text::decimal(n)
                    &&& !used.contains(plain + "_"@ + text::decimal(n))
                    &&& forall|m: nat|
                        2 <= m < n ==> used.contains(plain + "_"@ + #[trigger] text::decimal(m))
                }
        }),
{
    let plain = base_ident(name, is_attr);
    if used.contains(plain) {
        lemma_free_number(plain, used, 2);
        let n = choose|n: nat| is_free_number(plain, used, n);
        assert(is_free_number(plain, used, n));
        assert(numbered(plain, n) == plain + "_"@ + text::decimal(n));
        assert forall|m: nat| 2 <= m < n implies used.contains(
            plain + "_"@ + #[trigger] text::decimal(m),
        ) by {
            assert(used.contains(numbered(plain, m)));
        }
    }
}

/// An explicit key is the first header of that name in any case, and it is an
/// error if there is none.
pub proof fn lemma_explicit_key(order: Seq<Seq<char>>, name: Seq<char>, i: int)
    requires
        0 <= i <= order.len(),
        forall|j: int| 0 <= j < i ==> text::lowered(#[trigger] order[j]) != text::lowered(name),
        i < order.len() ==> text::lowered(order[i]) == text::lowered(name),
    ensures
        i < order.len() ==> key_of(order, Some(name)) == Ok::<Seq<char>, Fault>(order[i]),
        i == order.len() ==> key_of(order, Some(name)) == Err::<Seq<char>, Fault>(
            Fault::Schema("key column `"@ + name + "` not found in CSV headers"@),
        ),
{
    lemma_named_first(order, name, i);
}

proof fn lemma_named_first(order: Seq<Seq<char>>, name: Seq<char>, i: int)
    requires
        0 <= i <= order.len(),
        forall|j: int| 0 <= j < i ==> text::lowered(#[trigger] order[j]) != text::lowered(name),
        i < order.len() ==> text::lowered(order[i]) == text::lowered(name),
    ensures
        named(order, name) == if i < order.len() {
            Some(order[i])
        } else {
            None
        },
    decreases i,
{
    if i > 0 {
        assert(text::lowered(order[0]) != text::lowered(name));
        let rest = order.drop_first();
        assert forall|j: int| 0 <= j < i - 1 implies text::lowered(#[trigger] rest[j])
            != text::lowered(name) by {
            assert(rest[j] == order[j + 1]);
        }
        lemma_named_first(rest, name, i - 1);
    }
}

/// Without an explicit key the headers are searched for the familiar names,
/// the most telling first: the key is the first header whose identifier is the
/// first of the names that any header has, or else the first header.
pub proof fn lemma_familiar_key(
    order: Seq<Seq<char>>,
    names: Seq<Seq<char>>,
    k: int,
    i: int,
)
    requires
        names == seq![
            "account_id"@,
            "account_number"@,
            "account"@,
            "acct_id"@,
            "id"@,
            "customer_id"@,
        ],
        0 <= k <= names.len(),
        forall|m: int, j: int|
            0 <= m < k && 0 <= j < order.len() ==> ident_of(
                #[trigger] order[j],
                Set::empty(),
                false,
            ) != #[trigger] names[m],
        k < names.len() ==> 0 <= i < order.len() && ident_of(order[i], Set::empty(), false)
            == names[k],
        k < names.len() ==> forall|j: int|
            0 <= j < i ==> ident_of(#[trigger] order[j], Set::empty(), false) != names[k],
    ensures
        key_of(order, None) == Ok::<Seq<char>, Fault>(
            if k < names.len() {
                order[i]
            } else {
                order[0]
            },
        ),
{
    lemma_likely(order, names, k, i);
}

proof fn lemma_likely(order: Seq<Seq<char>>, names: Seq<Seq<char>>, k: int, i: int)
    requires
        0 <= k <= names.len(),
        forall|m: int, j: int|
            0 <= m < k && 0 <= j < order.len() ==> ident_of(
                #[trigger] order[j],
                Set::empty(),
                false,
            ) != #[trigger] names[m],
        k < names.len() ==> 0 <= i < order.len() && ident_of(order[i], Set::empty(), false)
            == names[k],
        k < names.len() ==> forall|j: int|
            0 <= j < i ==> ident_of(#[trigger] order[j], Set::empty(), false) != names[k],
    ensures
        likely_key(order, names) == if k < names.len() {
            order[i]
        } else {
            order[0]
        },
    decreases k,
{
    if k > 0 {
        assert forall|j: int| 0 <= j < order.len() implies ident_of(
            #[trigger] order[j],
            Set::empty(),
            false,
        ) != names[0] by {}
        lemma_identified_first(order, names[0], order.len() as int);
        let rest = names.drop_first();
        assert forall|m: int, j: int| 0 <= m < k - 1 && 0 <= j < order.len() implies ident_of(
            #[trigger] order[j],
            Set::empty(),
            false,
        ) != #[trigger] rest[m] by {
            assert(rest[m] == names[m + 1]);
        }
        lemma_likely(order, rest, k - 1, i);
    } else if names.len() > 0 {
        lemma_identified_first(order, names[0], i);
    }
}

proof fn lemma_identified_first(order: Seq<Seq<char>>, ident: Seq<char>, i: int)
    requires
        0 <= i <= order.len(),
        forall|j: int|
            0 <= j < i ==> ident_of(#[trigger] order[j], Set::empty(), false) != ident,
        i < order.len() ==> ident_of(order[i], Set::empty(), false) == ident,
    ensures
        identified(order, ident) == if i < order.len() {
            Some(order[i])
        } else {
            None
        },
    decreases i,
{
    if i > 0 {
        assert(ident_of(order[0], Set::empty(), false) != ident);
        let rest = order.drop_first();
        assert forall|j: int| 0 <= j < i - 1 implies ident_of(
            #[trigger] rest[j],
            Set::empty(),
            false,
        ) != ident by {
            assert(rest[j] == order[j + 1]);
        }
        lemma_identified_first(rest, ident, i - 1);
    }
}

} // verus!
