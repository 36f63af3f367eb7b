//! The lexical order of texts, and collections of texts kept in that order.

use crate::text;
use vstd::prelude::*;

verus! {

/// Whether `a` stands before `b` in lexical order: by the first character in
/// which they differ, a text before every longer one that it begins.
pub open spec fn precedes(a: Seq<char>, b: Seq<char>) -> bool
    decreases a.len(),
{
    if b.len() == 0 {
        false
    } else if a.len() == 0 {
        true
    } else if a[0] != b[0] {
        a[0] < b[0]
    } else {
        precedes(a.drop_first(), b.drop_first())
    }
}

/// No text stands before itself.
pub proof fn lemma_precedes_irreflexive(a: Seq<char>)
    ensures
        !precedes(a, a),
    decreases a.len(),
{
    if a.len() > 0 {
        lemma_precedes_irreflexive(a.drop_first());
    }
}

/// The lexical order is transitive.
pub proof fn lemma_precedes_transitive(a: Seq<char>, b: Seq<char>, c: Seq<char>)
    requires
        precedes(a, b),
        precedes(b, c),
    ensures
        precedes(a, c),
    decreases a.len(),
{
    if a.len() > 0 && a[0] == b[0] && b[0] == c[0] {
        lemma_precedes_transitive(a.drop_first(), b.drop_first(), c.drop_first());
    }
}

/// Of two different texts one stands before the other.
pub proof fn lemma_precedes_total(a: Seq<char>, b: Seq<char>)
    ensures
        precedes(a, b) || precedes(b, a) || a == b,
    decreases a.len(),
{
    if a.len() > 0 && b.len() > 0 && a[0] == b[0] {
        lemma_precedes_total(a.drop_first(), b.drop_first());
        if a.drop_first() == b.drop_first() {
            assert(a =~= seq![a[0]] + a.drop_first());
            assert(b =~= seq![b[0]] + b.drop_first());
        }
    } else if a.len() == 0 && b.len() == 0 {
        assert(a =~= b);
    }
}

/// Whether `a` stands before `b` in lexical order.
pub fn before(a: &str, b: &str) -> (out: bool)
    ensures
        out == precedes(a@, b@),
{
    let mut xs = a.chars();
    let mut ys = b.chars();
    let ghost mut n: int = 0;
    proof {
        assert(a@.skip(0) =~= a@);
        assert(b@.skip(0) =~= b@);
    }
    loop
        invariant
            0 <= n <= a@.len(),
            n <= b@.len(),
            vstd::std_specs::iter::IteratorSpec::remaining(&xs) == a@.skip(n),
            vstd::std_specs::iter::IteratorSpec::remaining(&ys) == b@.skip(n),
            precedes(a@, b@) == precedes(a@.skip(n), b@.skip(n)),
        decreases a@.len() - n,
    {
        let x = xs.next();
        let y = ys.next();
        match (x, y) {
            (_, None) => {
                return false;
            },
            (None, _) => {
                return true;
            },
            (Some(c), Some(d)) => {
                if c != d {
                    return c < d;
                }
                assert(a@.skip(n).drop_first() =~= a@.skip(n + 1));
                assert(b@.skip(n).drop_first() =~= b@.skip(n + 1));
            },
        }
        proof {
            n = n + 1;
        }
    }
}

/// Each text stands before the next ones.
pub open spec fn ascending(q: Seq<Seq<char>>) -> bool {
    forall|i: int, j: int| 0 <= i < j < q.len() ==> precedes(#[trigger] q[i], #[trigger] q[j])
}

/// The members of a finite set of texts, in lexical order.
pub open spec fn ordered(s: Set<Seq<char>>) -> Seq<Seq<char>> {
    choose|q: Seq<Seq<char>>| #[trigger] ascending(q) && q.to_set() == s
}

proof fn lemma_ascending_unique(p: Seq<Seq<char>>, q: Seq<Seq<char>>)
    requires
        ascending(p),
        ascending(q),
        p.to_set() == q.to_set(),
    ensures
        p == q,
    decreases p.len(),
{
    if p.len() == 0 {
        if q.len() > 0 {
            assert(q.to_set().contains(q[0]));
            assert(p.contains(q[0]));
        }
        assert(p =~= q);
    } else {
        assert(p.to_set().contains(p.last()));
        assert(q.contains(p.last()));
        let i = choose|i: int| 0 <= i < q.len() && q[i] == p.last();
        assert(q.to_set().contains(q.last()));
        assert(p.contains(q.last()));
        let j = choose|j: int| 0 <= j < p.len() && p[j] == q.last();
        if i < q.len() - 1 {
            assert(precedes(q[i], q[q.len() - 1]));
            if j < p.len() - 1 {
                assert(precedes(p[j], p[p.len() - 1]));
                lemma_precedes_transitive(p.last(), q.last(), p.last());
            }
            lemma_precedes_irreflexive(p.last());
        }
        assert(p.last() == q.last());
        let p2 = p.drop_last();
        let q2 = q.drop_last();
        assert forall|x: Seq<char>| p2.contains(x) implies q2.contains(x) by {
            let a = choose|a: int| 0 <= a < p2.len() && p2[a] == x;
            assert(p[a] == x);
            assert(p.to_set().contains(x));
            assert(q.contains(x));
            let b = choose|b: int| 0 <= b < q.len() && q[b] == x;
            assert(precedes(p[a], p[p.len() - 1]));
            lemma_precedes_irreflexive(x);
            assert(q2[b] == x);
        }
        assert forall|x: Seq<char>| q2.contains(x) implies p2.contains(x) by {
            let a = choose|a: int| 0 <= a < q2.len() && q2[a] == x;
            assert(q[a] == x);
            assert(q.to_set().contains(x));
            assert(p.contains(x));
            let b = choose|b: int| 0 <= b < p.len() && p[b] == x;
            assert(precedes(q[a], q[q.len() - 1]));
            lemma_precedes_irreflexive(x);
            assert(p2[b] == x);
        }
        assert(p2.to_set() =~= q2.to_set());
        lemma_ascending_unique(p2, q2);
        assert(p =~= p2.push(p.last()));
        assert(q =~= q2.push(q.last()));
    }
}

/// An ascending list is the ordered list of its members.
pub proof fn lemma_ordered(q: Seq<Seq<char>>)
    requires
        ascending(q),
    ensures
        ordered(q.to_set()) == q,
{
    let p = ordered(q.to_set());
    assert(ascending(p) && p.to_set() == q.to_set());
    lemma_ascending_unique(p, q);
}

/// The first character in which two texts differ decides their order.
pub proof fn lemma_precedes_at(a: Seq<char>, b: Seq<char>, n: int)
    requires
        0 <= n < a.len(),
        n < b.len(),
        a.take(n) == b.take(n),
        a[n] < b[n],
    ensures
        precedes(a, b),
    decreases n,
{
    if n > 0 {
        assert(a[0] == a.take(n)[0] && b[0] == b.take(n)[0]);
        let x = a.drop_first();
        let y = b.drop_first();
        assert(x.take(n - 1) =~= a.take(n).drop_first());
        assert(y.take(n - 1) =~= b.take(n).drop_first());
        lemma_precedes_at(x, y, n - 1);
    }
}

/// Picking texts out of an ascending list gives the picked ones in order.
pub proof fn lemma_ordered_filter(q: Seq<Seq<char>>, p: spec_fn(Seq<char>) -> bool)
    requires
        ascending(q),
    ensures
        ordered(q.to_set().filter(p)) == q.filter(p),
        q.filter(p).len() == q.to_set().filter(p).len(),
{
    lemma_filter_ascending(q, p);
    lemma_ordered(q.filter(p));
    lemma_ascending_len(q.filter(p));
}

proof fn lemma_filter_ascending(q: Seq<Seq<char>>, p: spec_fn(Seq<char>) -> bool)
    requires
        ascending(q),
    ensures
        ascending(q.filter(p)),
        q.filter(p).to_set() == q.to_set().filter(p),
    decreases q.len(),
{
    reveal(Seq::filter);
    if q.len() > 0 {
        let front = q.drop_last();
        let x = q.last();
        assert(ascending(front));
        lemma_filter_ascending(front, p);
        assert(q =~= front.push(x));
        lemma_push_set(front, x);
        let f = front.filter(p);
        lemma_push_set(f, x);
        if p(x) {
            assert(q.to_set().filter(p) =~= front.to_set().filter(p).insert(x));
            let r = f.push(x);
            assert forall|i: int, j: int| 0 <= i < j < r.len() implies precedes(
                #[trigger] r[i],
                #[trigger] r[j],
            ) by {
                if j == f.len() {
                    assert(f.to_set().contains(f[i]));
                    let k = choose|k: int| 0 <= k < front.len() && front[k] == f[i];
                    assert(precedes(q[k], q[q.len() - 1]));
                }
            }
        } else {
            assert(q.to_set().filter(p) =~= front.to_set().filter(p));
        }
    } else {
        assert(q.to_set().filter(p) =~= q.filter(p).to_set());
    }
}

/// An ascending list holds no text twice, so it is as long as its set is
/// large.
pub proof fn lemma_ascending_len(q: Seq<Seq<char>>)
    requires
        ascending(q),
    ensures
        q.no_duplicates(),
        q.to_set().len() == q.len(),
        q.to_set().finite(),
{
    assert forall|i: int, j: int| 0 <= i < q.len() && 0 <= j < q.len() && i != j implies q[i]
        != q[j] by {
        lemma_precedes_irreflexive(q[i]);
        if i < j {
            assert(precedes(q[i], q[j]));
        } else {
            assert(precedes(q[j], q[i]));
        }
    }
    q.unique_seq_to_set();
}

/// A finite set of texts has an ordered list.
pub proof fn lemma_ordered_exists(s: Set<Seq<char>>)
    requires
        s.finite(),
    ensures
        ascending(ordered(s)),
        ordered(s).to_set() == s,
        ordered(s).len() == s.len(),
        ordered(s).no_duplicates(),
    decreases s.len(),
{
    if s.len() == 0 {
        let q = Seq::<Seq<char>>::empty();
        assert(s =~= Set::empty());
        assert(q.to_set() =~= s);
        assert(ascending(q));
        lemma_ordered(q);
        lemma_ascending_len(q);
    } else {
        let x = s.choose();
        let rest = s.remove(x);
        lemma_ordered_exists(rest);
        let p = ordered(rest);
        let n = lemma_place(p, x);
        let q = p.insert(n, x);
        lemma_insert_ascending(p, x, n);
        assert(q.to_set() =~= s);
        lemma_ordered(q);
        lemma_ascending_len(q);
    }
}

/// Where a text goes in an ascending list.
proof fn lemma_place(q: Seq<Seq<char>>, x: Seq<char>) -> (n: int)
    requires
        ascending(q),
        !q.to_set().contains(x),
    ensures
        0 <= n <= q.len(),
        forall|i: int| 0 <= i < n ==> precedes(#[trigger] q[i], x),
        forall|i: int| n <= i < q.len() ==> precedes(x, #[trigger] q[i]),
    decreases q.len(),
{
    if q.len() == 0 {
        0
    } else {
        lemma_precedes_total(q.last(), x);
        assert(q.to_set().contains(q.last()));
        if precedes(q.last(), x) {
            assert forall|i: int| 0 <= i < q.len() implies precedes(#[trigger] q[i], x) by {
                if i < q.len() - 1 {
                    assert(precedes(q[i], q[q.len() - 1]));
                    lemma_precedes_transitive(q[i], q.last(), x);
                }
            }
            q.len() as int
        } else {
            let p = q.drop_last();
            assert(!p.to_set().contains(x)) by {
                if p.contains(x) {
                    let i = choose|i: int| 0 <= i < p.len() && p[i] == x;
                    assert(q[i] == x);
                }
            }
            let n = lemma_place(p, x);
            assert forall|i: int| 0 <= i < n implies precedes(#[trigger] q[i], x) by {
                assert(q[i] == p[i]);
            }
            assert forall|i: int| n <= i < q.len() implies precedes(x, #[trigger] q[i]) by {
                if i < q.len() - 1 {
                    assert(q[i] == p[i]);
                }
            }
            n
        }
    }
}

/// Inserting a text at its place keeps the list ascending.
proof fn lemma_insert_ascending(q: Seq<Seq<char>>, x: Seq<char>, n: int)
    requires
        ascending(q),
        0 <= n <= q.len(),
        forall|i: int| 0 <= i < n ==> precedes(#[trigger] q[i], x),
        forall|i: int| n <= i < q.len() ==> precedes(x, #[trigger] q[i]),
    ensures
        ascending(q.insert(n, x)),
        q.insert(n, x).to_set() == q.to_set().insert(x),
{
    let r = q.insert(n, x);
    assert forall|i: int, j: int| 0 <= i < j < r.len() implies precedes(
        #[trigger] r[i],
        #[trigger] r[j],
    ) by {
        let a = if i < n {
            i
        } else {
            i - 1
        };
        let b = if j < n {
            j
        } else {
            j - 1
        };
        if i != n && j != n {
            assert(r[i] == q[a] && r[j] == q[b]);
        } else if i == n {
            assert(r[j] == q[b]);
        } else {
            assert(r[i] == q[a]);
        }
    }
    assert forall|y: Seq<char>| r.to_set().contains(y) == q.to_set().insert(x).contains(y) by {
        if r.contains(y) {
            let i = choose|i: int| 0 <= i < r.len() && r[i] == y;
            if i < n {
                assert(q[i] == y);
            } else if i > n {
                assert(q[i - 1] == y);
            }
        }
        if q.contains(y) {
            let i = choose|i: int| 0 <= i < q.len() && q[i] == y;
            if i < n {
                assert(r[i] == y);
            } else {
                assert(r[i + 1] == y);
            }
        }
        assert(r[n] == x);
    }
    assert(r.to_set() =~= q.to_set().insert(x));
}

/// Where `key` stands in an ascending list, or would have to be inserted.
fn place(items: &Vec<String>, key: &str) -> (out: (bool, usize))
    requires
        ascending(text::texts(items@)),
    ensures
        out.0 == text::texts(items@).to_set().contains(key@),
        out.0 ==> out.1 < items@.len() && items@[out.1 as int]@ == key@,
        out.1 <= items@.len(),
        !out.0 ==> {
            &&& forall|i: int|
                0 <= i < out.1 ==> precedes(#[trigger] text::texts(items@)[i], key@)
            &&& forall|i: int|
                out.1 <= i < items@.len() ==> precedes(key@, #[trigger] text::texts(items@)[i])
        },
{
    let ghost q = text::texts(items@);
    let mut lo: usize = 0;
    let mut hi: usize = items.len();
    while lo < hi
        invariant
            q == text::texts(items@),
            ascending(q),
            lo <= hi <= items@.len(),
            forall|i: int| 0 <= i < lo ==> precedes(#[trigger] q[i], key@),
            forall|i: int| hi <= i < q.len() ==> precedes(key@, #[trigger] q[i]),
        decreases hi - lo,
    {
        let mid = lo + (hi - lo) / 2;
        assert(q[mid as int] == items@[mid as int]@);
        if before(items[mid].as_str(), key) {
            proof {
                assert forall|i: int| 0 <= i < mid + 1 implies precedes(#[trigger] q[i], key@) by {
                    if i < mid {
                        assert(precedes(q[i], q[mid as int]));
                        lemma_precedes_transitive(q[i], q[mid as int], key@);
                    }
                }
            }
            lo = mid + 1;
        } else if before(key, items[mid].as_str()) {
            proof {
                assert forall|i: int| mid <= i < q.len() implies precedes(key@, #[trigger] q[i]) by {
                    if i > mid {
                        assert(precedes(q[mid as int], q[i]));
                        lemma_precedes_transitive(key@, q[mid as int], q[i]);
                    }
                }
            }
            hi = mid;
        } else {
            proof {
                lemma_precedes_total(q[mid as int], key@);
                assert(q.contains(key@));
            }
            return (true, mid);
        }
    }
    proof {
        if q.contains(key@) {
            let i = choose|i: int| 0 <= i < q.len() && q[i] == key@;
            lemma_precedes_irreflexive(key@);
        }
    }
    (false, lo)
}

/// A set of texts, kept in lexical order.
pub struct TextSet {
    pub items: Vec<String>,
}

impl View for TextSet {
    type V = Set<Seq<char>>;

    open spec fn view(&self) -> Set<Seq<char>> {
        text::texts(self.items@).to_set()
    }
}

impl TextSet {
    /// The members are listed in lexical order, each once.
    pub open spec fn wf(&self) -> bool {
        ascending(text::texts(self.items@))
    }

    pub fn new() -> (out: TextSet)
        ensures
            out.wf(),
            out@ == Set::<Seq<char>>::empty(),
            out.items@.len() == 0,
    {
        let out = TextSet { items: Vec::new() };
        assert(out@ =~= Set::empty());
        out
    }

    pub fn contains(&self, key: &str) -> (out: bool)
        requires
            self.wf(),
        ensures
            out == self@.contains(key@),
    {
        place(&self.items, key).0
    }

    /// Add a text; tells whether it was new.
    pub fn insert(&mut self, key: &str) -> (out: bool)
        requires
            old(self).wf(),
        ensures
            final(self).wf(),
            final(self)@ == old(self)@.insert(key@),
            out == !old(self)@.contains(key@),
    {
        let (found, at) = place(&self.items, key);
        if found {
            assert(self@.insert(key@) =~= self@);
            return false;
        }
        let ghost q = text::texts(self.items@);
        self.items.insert(at, key.to_owned());
        proof {
            assert(text::texts(self.items@) =~= q.insert(at as int, key@));
            lemma_insert_ascending(q, key@, at as int);
        }
        true
    }

    /// The members that another set lacks, in lexical order.
    pub fn difference(&self, other: &TextSet) -> (out: Vec<String>)
        requires
            self.wf(),
            other.wf(),
        ensures
            text::texts(out@) == ordered(self@.difference(other@)),
    {
        let mut out: Vec<String> = Vec::new();
        let ghost all = text::texts(self.items@);
        for i in 0..self.items.len()
            invariant
                all == text::texts(self.items@),
                ascending(all),
                self.wf(),
                other.wf(),
                ascending(text::texts(out@)),
                forall|x: Seq<char>|
                    #[trigger] text::texts(out@).contains(x) <==> all.take(i as int).contains(x)
                        && !other@.contains(x),
        {
            let ghost was = text::texts(out@);
            let ghost x = all[i as int];
            assert(all.take(i + 1) =~= all.take(i as int).push(x));
            assert forall|y: Seq<char>| #[trigger]
                all.take(i + 1).contains(y) <==> all.take(i as int).contains(y) || y == x by {
                lemma_push_set(all.take(i as int), x);
                assert(all.take(i + 1).to_set().contains(y) == all.take(i as int).to_set().insert(
                    x,
                ).contains(y));
            }
            if !other.contains(self.items[i].as_str()) {
                out.push(self.items[i].clone());
                proof {
                    let now = text::texts(out@);
                    assert(now =~= was.push(x));
                    assert forall|a: int, b: int| 0 <= a < b < now.len() implies precedes(
                        #[trigger] now[a],
                        #[trigger] now[b],
                    ) by {
                        if b == was.len() {
                            assert(was.contains(was[a]));
                            let k = choose|k: int|
                                0 <= k < i && all.take(i as int)[k] == was[a];
                            assert(precedes(all[k], all[i as int]));
                        } else {
                            assert(precedes(was[a], was[b]));
                        }
                    }
                    assert forall|y: Seq<char>| #[trigger] now.contains(y) <==> was.contains(y) || y
                        == x by {
                        lemma_push_set(was, x);
                        assert(now.to_set().contains(y) == was.to_set().insert(x).contains(y));
                    }
                }
            }
        }
        proof {
            assert(all.take(self.items@.len() as int) =~= all);
            assert(text::texts(out@).to_set() =~= self@.difference(other@));
            lemma_ordered(text::texts(out@));
        }
        out
    }

    pub fn len(&self) -> (out: usize)
        requires
            self.wf(),
        ensures
            out == self@.len(),
            self@.finite(),
    {
        proof {
            lemma_ascending_len(text::texts(self.items@));
        }
        self.items.len()
    }
}

/// The set of the texts in a list.
pub fn text_set(items: &[String]) -> (out: TextSet)
    ensures
        out.wf(),
        out@ == text::texts(items@).to_set(),
{
    let mut out = TextSet::new();
    assert(text::texts(items@).take(0).to_set() =~= Set::empty());
    for i in 0..items.len()
        invariant
            out.wf(),
            out@ == text::texts(items@).take(i as int).to_set(),
    {
        out.insert(items[i].as_str());
        proof {
            let t = text::texts(items@);
            assert(t.take(i + 1) =~= t.take(i as int).push(t[i as int]));
            lemma_push_set(t.take(i as int), t[i as int]);
        }
    }
    assert(text::texts(items@).take(items@.len() as int) =~= text::texts(items@));
    out
}

/// What one more member adds to the set of a list.
pub proof fn lemma_push_set<A>(q: Seq<A>, x: A)
    ensures
        q.push(x).to_set() == q.to_set().insert(x),
{
    assert forall|y: A| q.push(x).to_set().contains(y) == q.to_set().insert(x).contains(y) by {
        if q.push(x).contains(y) {
            let i = choose|i: int| 0 <= i < q.push(x).len() && q.push(x)[i] == y;
            if i < q.len() {
                assert(q[i] == y);
            }
        }
        if q.contains(y) {
            let i = choose|i: int| 0 <= i < q.len() && q[i] == y;
            assert(q.push(x)[i] == y);
        }
        assert(q.push(x)[q.len() as int] == x);
    }
    assert(q.push(x).to_set() =~= q.to_set().insert(x));
}

/// A map from texts, its keys kept in lexical order.
pub struct TextMap<V> {
    pub keys: Vec<String>,
    pub values: Vec<V>,
}

impl<V> View for TextMap<V> {
    type V = Map<Seq<char>, V>;

    open spec fn view(&self) -> Map<Seq<char>, V> {
        Map::new(
            |k: Seq<char>| text::texts(self.keys@).to_set().contains(k),
            |k: Seq<char>| self.values@[text::texts(self.keys@).index_of(k)],
        )
    }
}

impl<V> TextMap<V> {
    /// The keys are listed in lexical order, each once, with their values
    /// alongside.
    pub open spec fn wf(&self) -> bool {
        &&& ascending(text::texts(self.keys@))
        &&& self.values@.len() == self.keys@.len()
    }

    /// What the map holds at each position.
    pub proof fn lemma_entries(&self)
        requires
            self.wf(),
        ensures
            self@.dom() == text::texts(self.keys@).to_set(),
            self@.dom().finite(),
            self@.dom().len() == self.keys@.len(),
            text::texts(self.keys@) == ordered(self@.dom()),
            forall|i: int|
                0 <= i < self.keys@.len() ==> self@.contains_key(#[trigger] self.keys@[i]@)
                    && self@[self.keys@[i]@] == self.values@[i],
    {
        let q = text::texts(self.keys@);
        lemma_ascending_len(q);
        lemma_ordered(q);
        assert(self@.dom() =~= q.to_set());
        assert forall|i: int| 0 <= i < self.keys@.len() implies self@.contains_key(
            #[trigger] self.keys@[i]@,
        ) && self@[self.keys@[i]@] == self.values@[i] by {
            assert(q[i] == self.keys@[i]@);
            assert(q.contains(q[i]));
            let j = q.index_of(q[i]);
            assert(q[j] == q[i]);
        }
    }

    pub fn new() -> (out: TextMap<V>)
        ensures
            out.wf(),
            out@ == Map::<Seq<char>, V>::empty(),
    {
        let out = TextMap { keys: Vec::new(), values: Vec::new() };
        assert(out@ =~= Map::empty());
        out
    }

    /// The value kept for a key.
    pub fn get(&self, key: &str) -> (out: Option<&V>)
        requires
            self.wf(),
        ensures
            match out {
                Some(v) => self@.contains_key(key@) && *v == self@[key@],
                None => !self@.contains_key(key@),
            },
    {
        let (found, at) = place(&self.keys, key);
        proof {
            self.lemma_entries();
        }
        if found {
            Some(&self.values[at])
        } else {
            None
        }
    }

    /// Keep a value for a key, in place of any earlier one.
    pub fn insert(&mut self, key: &str, value: V)
        requires
            old(self).wf(),
        ensures
            final(self).wf(),
            final(self)@ == old(self)@.insert(key@, value),
    {
        let (found, at) = place(&self.keys, key);
        proof {
            self.lemma_entries();
        }
        let ghost q = text::texts(self.keys@);
        if found {
            self.values.set(at, value);
        } else {
            self.keys.insert(at, key.to_owned());
            self.values.insert(at, value);
            proof {
                assert(text::texts(self.keys@) =~= q.insert(at as int, key@));
                lemma_insert_ascending(q, key@, at as int);
            }
        }
        proof {
            self.lemma_entries();
            let was = *old(self);
            let now = *self;
            assert forall|k: Seq<char>| now@.contains_key(k) implies was@.insert(
                key@,
                value,
            ).contains_key(k) && now@[k] == was@.insert(key@, value)[k] by {
                let i = choose|i: int| 0 <= i < now.keys@.len() && text::texts(now.keys@)[i] == k;
                assert(text::texts(now.keys@)[i] == now.keys@[i]@);
                if found {
                    assert(was.keys@[i]@ == k);
                } else if i < at {
                    assert(was.keys@[i]@ == k);
                } else if i > at {
                    assert(was.keys@[i - 1]@ == k);
                }
                if k == key@ {
                    assert(now@[now.keys@[at as int]@] == now.values@[at as int]);
                } else if !found && i < at {
                    assert(was@[was.keys@[i]@] == was.values@[i]);
                } else if !found {
                    assert(was@[was.keys@[i - 1]@] == was.values@[i - 1]);
                }
            }
            assert(now@.dom() =~= was@.insert(key@, value).dom());
            assert(now@ =~= was@.insert(key@, value));
        }
    }

    pub fn len(&self) -> (out: usize)
        requires
            self.wf(),
        ensures
            out == self@.dom().len(),
    {
        proof {
            self.lemma_entries();
        }
        self.keys.len()
    }
}

/// A text comes before every longer one that it begins.
pub proof fn lemma_prefix_precedes(a: Seq<char>, more: Seq<char>)
    requires
        more.len() > 0,
    ensures
        precedes(a, a + more),
        !precedes(a + more, a),
    decreases a.len(),
{
    let b = a + more;
    if a.len() > 0 {
        assert(b[0] == a[0]);
        assert(b.drop_first() =~= a.drop_first() + more);
        lemma_prefix_precedes(a.drop_first(), more);
    }
}

/// A list is in order exactly if each of its texts comes before the next.
pub proof fn lemma_ascending(q: Seq<Seq<char>>)
    ensures
        ascending(q) <==> forall|i: int|
            0 <= i && i + 1 < q.len() ==> precedes(#[trigger] q[i], q[i + 1]),
    decreases q.len(),
{
    if forall|i: int| 0 <= i && i + 1 < q.len() ==> precedes(#[trigger] q[i], q[i + 1]) {
        assert forall|i: int, j: int| 0 <= i < j < q.len() implies precedes(
            #[trigger] q[i],
            #[trigger] q[j],
        ) by {
            lemma_chain(q, i, j);
        }
    }
}

proof fn lemma_chain(q: Seq<Seq<char>>, i: int, j: int)
    requires
        0 <= i < j < q.len(),
        forall|k: int| 0 <= k && k + 1 < q.len() ==> precedes(#[trigger] q[k], q[k + 1]),
    ensures
        precedes(q[i], q[j]),
    decreases j - i,
{
    if i + 1 < j {
        lemma_chain(q, i, j - 1);
        assert(precedes(q[j - 1], q[j - 1 + 1]));
        lemma_precedes_transitive(q[i], q[j - 1], q[j]);
    } else {
        assert(precedes(q[i], q[i + 1]));
    }
}

} // verus!
