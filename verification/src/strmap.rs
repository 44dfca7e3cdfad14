//! Maps keyed by text, kept in ascending order of their keys.

use crate::text::{chars_of, code};
use vstd::prelude::*;

verus! {

/// Lexicographic order by code points.
pub open spec fn text_lt(a: Seq<char>, b: Seq<char>) -> bool
    decreases a.len(),
{
    if b.len() == 0 {
        false
    } else if a.len() == 0 {
        true
    } else if a.first() != b.first() {
        (a.first() as int) < (b.first() as int)
    } else {
        text_lt(a.drop_first(), b.drop_first())
    }
}

/// Exactly one of "less", "equal" and "greater" holds of two texts.
pub proof fn lemma_text_trichotomy(a: Seq<char>, b: Seq<char>)
    ensures
        a == b ==> !text_lt(a, b),
        a != b ==> text_lt(a, b) != text_lt(b, a),
    decreases a.len(),
{
    if a.len() > 0 && b.len() > 0 {
        if a.first() == b.first() {
            lemma_text_trichotomy(a.drop_first(), b.drop_first());
            if a.drop_first() == b.drop_first() {
                assert(a == seq![a.first()] + a.drop_first());
                assert(b == seq![b.first()] + b.drop_first());
            }
        }
    } else {
        assert(a.len() == 0 && b.len() == 0 ==> a == b);
    }
}

pub proof fn lemma_text_lt_transitive(a: Seq<char>, b: Seq<char>, c: Seq<char>)
    requires
        text_lt(a, b),
        text_lt(b, c),
    ensures
        text_lt(a, c),
    decreases a.len(),
{
    if a.len() > 0 && a.first() == b.first() && b.first() == c.first() {
        lemma_text_lt_transitive(a.drop_first(), b.drop_first(), c.drop_first());
    }
}

fn less(a: &str, b: &str) -> (r: bool)
    ensures
        r == text_lt(a@, b@),
{
    let x = chars_of(a);
    let y = chars_of(b);
    let mut i: usize = 0;
    assert(a@.skip(0) == a@ && b@.skip(0) == b@);
    while i < x.len() && i < y.len()
        invariant
            x@ == a@,
            y@ == b@,
            i <= x.len(),
            i <= y.len(),
            text_lt(a@, b@) == text_lt(a@.skip(i as int), b@.skip(i as int)),
        decreases x.len() - i,
    {
        if x[i] != y[i] {
            return code(x[i]) < code(y[i]);
        }
        assert(a@.skip(i as int).drop_first() == a@.skip(i + 1));
        assert(b@.skip(i as int).drop_first() == b@.skip(i + 1));
        i += 1;
    }
    i < y.len()
}

/// The map that a sequence of entries describes; of two entries with one key
/// the later counts.
pub open spec fn entries_map<V>(e: Seq<(Seq<char>, V)>) -> Map<Seq<char>, V>
    decreases e.len(),
{
    if e.len() == 0 {
        Map::empty()
    } else {
        entries_map(e.drop_last()).insert(e.last().0, e.last().1)
    }
}

/// The keys stand in ascending order, none of them twice.
pub open spec fn ascending<V>(e: Seq<(Seq<char>, V)>) -> bool {
    forall|i: int, j: int| 0 <= i < j < e.len() ==> text_lt(#[trigger] e[i].0, #[trigger] e[j].0)
}

/// Of ascending entries each one is in the map, and the map holds nothing else.
pub proof fn lemma_ascending_map<V>(e: Seq<(Seq<char>, V)>)
    requires
        ascending(e),
    ensures
        forall|i: int|
            0 <= i < e.len() ==> #[trigger] entries_map(e).contains_pair(e[i].0, e[i].1),
        forall|k: Seq<char>| #[trigger]
            entries_map(e).contains_key(k) ==> exists|i: int| 0 <= i < e.len() && e[i].0 == k,
    decreases e.len(),
{
    if e.len() > 0 {
        let d = e.drop_last();
        lemma_ascending_map(d);
        assert forall|i: int| 0 <= i < e.len() implies #[trigger] entries_map(e).contains_pair(
            e[i].0,
            e[i].1,
        ) by {
            if i < d.len() {
                lemma_text_trichotomy(e[i].0, e.last().0);
                assert(entries_map(d).contains_pair(d[i].0, d[i].1));
            }
        }
        assert forall|k: Seq<char>| #[trigger] entries_map(e).contains_key(k) implies exists|i: int|
            0 <= i < e.len() && e[i].0 == k by {
            if k == e.last().0 {
                assert(e[e.len() - 1].0 == k);
            } else {
                assert(entries_map(d).contains_key(k));
                let i = choose|i: int| 0 <= i < d.len() && d[i].0 == k;
                assert(e[i].0 == k);
            }
        }
    }
}

/// The entries of a map in ascending order of their keys.
pub open spec fn listed<V>(m: Map<Seq<char>, V>) -> Seq<(Seq<char>, V)> {
    choose|e: Seq<(Seq<char>, V)>| ascending(e) && #[trigger] entries_map(e) == m
}

proof fn lemma_last_is_greatest<V>(e: Seq<(Seq<char>, V)>, k: Seq<char>)
    requires
        ascending(e),
        entries_map(e).contains_key(k),
    ensures
        e.len() > 0,
        k == e.last().0 || text_lt(k, e.last().0),
{
    lemma_ascending_map(e);
    let i = choose|i: int| 0 <= i < e.len() && e[i].0 == k;
    if i < e.len() - 1 {
        assert(text_lt(e[i].0, e[e.len() - 1].0));
    }
}

proof fn lemma_last_dropped<V>(e: Seq<(Seq<char>, V)>)
    requires
        ascending(e),
        e.len() > 0,
    ensures
        ascending(e.drop_last()),
        entries_map(e.drop_last()) == entries_map(e).remove(e.last().0),
        entries_map(e).contains_pair(e.last().0, e.last().1),
{
    let d = e.drop_last();
    assert forall|i: int, j: int| 0 <= i < j < d.len() implies text_lt(
        #[trigger] d[i].0,
        #[trigger] d[j].0,
    ) by {
        assert(text_lt(e[i].0, e[j].0));
    }
    lemma_ascending_map(d);
    assert(!entries_map(d).contains_key(e.last().0)) by {
        if entries_map(d).contains_key(e.last().0) {
            let i = choose|i: int| 0 <= i < d.len() && d[i].0 == e.last().0;
            assert(text_lt(e[i].0, e[e.len() - 1].0));
            lemma_text_trichotomy(e.last().0, e.last().0);
        }
    }
    assert(entries_map(d) =~= entries_map(e).remove(e.last().0));
}

proof fn lemma_ascending_unique<V>(a: Seq<(Seq<char>, V)>, b: Seq<(Seq<char>, V)>)
    requires
        ascending(a),
        ascending(b),
        entries_map(a) == entries_map(b),
    ensures
        a == b,
    decreases a.len(),
{
    lemma_ascending_map(a);
    lemma_ascending_map(b);
    if a.len() == 0 {
        if b.len() > 0 {
            assert(entries_map(b).contains_pair(b[0].0, b[0].1));
        }
        assert(a =~= b);
    } else {
        lemma_last_dropped(a);
        lemma_last_is_greatest(b, a.last().0);
        lemma_last_dropped(b);
        lemma_last_is_greatest(a, b.last().0);
        lemma_text_trichotomy(a.last().0, b.last().0);
        lemma_ascending_unique(a.drop_last(), b.drop_last());
        assert(a =~= a.drop_last().push(a.last()));
        assert(b =~= b.drop_last().push(b.last()));
    }
}

/// Ascending entries are those of the map that they describe.
pub proof fn lemma_listed<V>(e: Seq<(Seq<char>, V)>)
    requires
        ascending(e),
    ensures
        listed(entries_map(e)) == e,
{
    lemma_ascending_unique(listed(entries_map(e)), e);
}

/// A map from texts to values of type `V`.
#[derive(Debug)]
pub struct StrMap<V> {
    entries: Vec<(String, V)>,
}

impl<V> View for StrMap<V> {
    type V = Map<Seq<char>, V>;

    open spec fn view(&self) -> Map<Seq<char>, V> {
        entries_map(self.entries())
    }
}

impl<V> StrMap<V> {
    /// The entries in the order of their keys.
    pub closed spec fn entries(self) -> Seq<(Seq<char>, V)> {
        Seq::new(self.entries@.len(), |i: int| (self.entries@[i].0@, self.entries@[i].1))
    }

    /// The keys are in ascending order.
    #[verifier::type_invariant]
    pub open spec fn wf(self) -> bool {
        ascending(self.entries())
    }

    /// A map without entries.
    pub fn new() -> (m: Self)
        ensures
            m.wf(),
            m.entries() == Seq::<(Seq<char>, V)>::empty(),
            m@ == Map::<Seq<char>, V>::empty(),
    {
        let m = StrMap { entries: Vec::new() };
        assert(m.entries() == Seq::<(Seq<char>, V)>::empty());
        m
    }

    /// The number of entries.
    pub fn len(&self) -> (n: usize)
        ensures
            n == self.entries().len(),
    {
        self.entries.len()
    }

    /// The entry at a position.
    pub fn entry(&self, i: usize) -> (r: (&String, &V))
        requires
            i < self.entries().len(),
        ensures
            (r.0@, *r.1) == self.entries()[i as int],
            self.wf(),
    {
        proof {
            use_type_invariant(self);
        }
        let e = &self.entries[i];
        (&e.0, &e.1)
    }

    /// The position of the first key that is not less than `k`.
    fn position(&self, k: &str) -> (p: usize)
        ensures
            p <= self.entries().len(),
            forall|i: int| 0 <= i < p ==> text_lt(#[trigger] self.entries()[i].0, k@),
            p < self.entries().len() ==> !text_lt(self.entries()[p as int].0, k@),
    {
        let mut p: usize = 0;
        while p < self.entries.len() && less(self.entries[p].0.as_str(), k)
            invariant
                p <= self.entries().len(),
                forall|i: int| 0 <= i < p ==> text_lt(#[trigger] self.entries()[i].0, k@),
            decreases self.entries.len() - p,
        {
            p += 1;
        }
        p
    }

    proof fn lemma_position(self, k: Seq<char>, p: int)
        requires
            self.wf(),
            0 <= p <= self.entries().len(),
            forall|i: int| 0 <= i < p ==> text_lt(#[trigger] self.entries()[i].0, k),
            p < self.entries().len() ==> !text_lt(self.entries()[p].0, k),
        ensures
            self@.contains_key(k) <==> p < self.entries().len() && self.entries()[p].0 == k,
            p < self.entries().len() && self.entries()[p].0 == k ==> self@[k]
                == self.entries()[p].1,
    {
        let e = self.entries();
        lemma_ascending_map(e);
        if p < e.len() && e[p].0 == k {
            assert(self@.contains_pair(e[p].0, e[p].1));
        }
        if self@.contains_key(k) {
            let i = choose|i: int| 0 <= i < e.len() && e[i].0 == k;
            lemma_text_trichotomy(k, k);
            if i > p {
                assert(text_lt(e[p].0, e[i].0));
            }
        }
    }

    /// The value under a key.
    pub fn get(&self, k: &str) -> (r: Option<&V>)
        ensures
            match r {
                Some(v) => self@.contains_key(k@) && self@[k@] == *v,
                None => !self@.contains_key(k@),
            },
    {
        proof {
            use_type_invariant(self);
        }
        let p = self.position(k);
        proof {
            self.lemma_position(k@, p as int);
        }
        if p < self.entries.len() && crate::text::same_text(self.entries[p].0.as_str(), k) {
            Some(&self.entries[p].1)
        } else {
            None
        }
    }

    /// Puts a value under a key, in place of the value that was there.
    pub fn insert(&mut self, k: String, v: V)
        ensures
            final(self).wf(),
            final(self)@ == old(self)@.insert(k@, v),
    {
        proof {
            use_type_invariant(&*self);
        }
        let p = self.position(k.as_str());
        let ghost e = self.entries();
        proof {
            self.lemma_position(k@, p as int);
        }
        let present = p < self.entries.len() && crate::text::same_text(
            self.entries[p].0.as_str(),
            k.as_str(),
        );
        let ghost key = k@;
        let mut es: Vec<(String, V)> = Vec::new();
        std::mem::swap(&mut es, &mut self.entries);
        if present {
            es.set(p, (k, v));
        } else {
            es.insert(p, (k, v));
        }
        proof {
            let f = Seq::new(es@.len(), |i: int| (es@[i].0@, es@[i].1));
            if present {
                assert(f == e.update(p as int, (key, v)));
            } else {
                assert(f == e.insert(p as int, (key, v)));
            }
            lemma_insert(e, f, p as int, key, v, present);
        }
        self.entries = es;
    }
}

impl<V: Clone> Clone for StrMap<V> {
    fn clone(&self) -> (r: Self)
        ensures
            r.wf(),
            r.entries().len() == self.entries().len(),
            forall|i: int|
                0 <= i < self.entries().len() ==> #[trigger] r.entries()[i].0
                    == self.entries()[i].0,
            forall|i: int|
                0 <= i < self.entries().len() ==> cloned::<V>(
                    self.entries()[i].1,
                    #[trigger] r.entries()[i].1,
                ),
    {
        proof {
            use_type_invariant(self);
        }
        let mut es: Vec<(String, V)> = Vec::new();
        let mut i: usize = 0;
        while i < self.entries.len()
            invariant
                i <= self.entries.len(),
                es.len() == i,
                forall|j: int| 0 <= j < i ==> #[trigger] es@[j].0@ == self.entries@[j].0@,
                forall|j: int|
                    0 <= j < i ==> cloned::<V>(self.entries@[j].1, #[trigger] es@[j].1),
            decreases self.entries.len() - i,
        {
            let k = self.entries[i].0.clone();
            let v = self.entries[i].1.clone();
            es.push((k, v));
            i += 1;
        }
        let ghost f = Seq::new(es@.len(), |i: int| (es@[i].0@, es@[i].1));
        assert(ascending(f)) by {
            assert forall|i: int, j: int| 0 <= i < j < f.len() implies text_lt(
                #[trigger] f[i].0,
                #[trigger] f[j].0,
            ) by {
                assert(text_lt(self.entries()[i].0, self.entries()[j].0));
            }
        }
        StrMap { entries: es }
    }
}

proof fn lemma_insert<V>(
    e: Seq<(Seq<char>, V)>,
    f: Seq<(Seq<char>, V)>,
    p: int,
    k: Seq<char>,
    v: V,
    present: bool,
)
    requires
        ascending(e),
        0 <= p <= e.len(),
        forall|i: int| 0 <= i < p ==> text_lt(#[trigger] e[i].0, k),
        p < e.len() ==> !text_lt(e[p].0, k),
        present == (p < e.len() && e[p].0 == k),
        f == if present {
            e.update(p, (k, v))
        } else {
            e.insert(p, (k, v))
        },
    ensures
        ascending(f),
        entries_map(f) == entries_map(e).insert(k, v),
{
    assert forall|j: int| (if present { p < j } else { p <= j }) && j < e.len() implies text_lt(
        k,
        #[trigger] e[j].0,
    ) by {
        lemma_text_trichotomy(e[p].0, k);
        if j > p && !present {
            lemma_text_lt_transitive(k, e[p].0, e[j].0);
        }
    }
    assert forall|i: int, j: int| 0 <= i < j < f.len() implies text_lt(
        #[trigger] f[i].0,
        #[trigger] f[j].0,
    ) by {
        let shift = if present { 0int } else { 1int };
        let ei = if i < p { i } else { i - shift };
        let ej = if j < p { j } else { j - shift };
        if i != p {
            assert(f[i] == e[ei]);
        }
        if j != p {
            assert(f[j] == e[ej]);
        }
    }
    lemma_ascending_map(e);
    lemma_ascending_map(f);
    let m = entries_map(f);
    let n = entries_map(e).insert(k, v);
    assert(m.contains_pair(f[p].0, f[p].1));
    assert forall|x: Seq<char>| #[trigger] m.dom().contains(x) implies n.dom().contains(x) && n[x]
        == m[x] by {
        assert(m.contains_key(x));
        let i = choose|i: int| 0 <= i < f.len() && f[i].0 == x;
        assert(m.contains_pair(f[i].0, f[i].1));
        if i != p {
            let shift = if present { 0int } else { 1int };
            let ei = if i < p { i } else { i - shift };
            assert(f[i] == e[ei]);
            assert(entries_map(e).contains_pair(e[ei].0, e[ei].1));
            lemma_text_trichotomy(k, x);
        }
    }
    assert forall|x: Seq<char>| #[trigger] n.dom().contains(x) implies m.dom().contains(x) by {
        if x != k {
            assert(entries_map(e).contains_key(x));
            let i = choose|i: int| 0 <= i < e.len() && e[i].0 == x;
            let fi = if present || i < p { i } else { i + 1 };
            assert(f[fi] == e[i]);
            assert(m.contains_pair(f[fi].0, f[fi].1));
        }
    }
    assert(m =~= n);
}

/// Of the entries with one key the last counts, and a map holds what its entries
/// say.
pub proof fn law_last_entry_counts<V>(e: Seq<(Seq<char>, V)>, i: int)
    requires
        0 <= i < e.len(),
        forall|j: int| i < j < e.len() ==> (#[trigger] e[j]).0 != e[i].0,
    ensures
        entries_map(e).contains_key(e[i].0),
        entries_map(e)[e[i].0] == e[i].1,
        forall|k: Seq<char>| #[trigger]
            entries_map(e).contains_key(k) ==> exists|j: int| 0 <= j < e.len() && e[j].0 == k,
    decreases e.len(),
{
    lemma_keys_are_entries(e);
    let d = e.drop_last();
    if i < e.len() - 1 {
        assert(d[i] == e[i]);
        assert(e[e.len() - 1].0 != e[i].0);
        assert forall|j: int| i < j < d.len() implies (#[trigger] d[j]).0 != d[i].0 by {
            assert(d[j] == e[j]);
        }
        law_last_entry_counts(d, i);
    }
}

proof fn lemma_keys_are_entries<V>(e: Seq<(Seq<char>, V)>)
    ensures
        forall|k: Seq<char>| #[trigger]
            entries_map(e).contains_key(k) ==> exists|j: int| 0 <= j < e.len() && e[j].0 == k,
    decreases e.len(),
{
    if e.len() > 0 {
        let d = e.drop_last();
        lemma_keys_are_entries(d);
        assert forall|k: Seq<char>| #[trigger] entries_map(e).contains_key(k) implies exists|
            j: int,
        |
            0 <= j < e.len() && e[j].0 == k by {
            if k == e.last().0 {
                assert(e[e.len() - 1].0 == k);
            } else {
                assert(entries_map(d).contains_key(k));
                let j = choose|j: int| 0 <= j < d.len() && d[j].0 == k;
                assert(e[j].0 == k);
            }
        }
    }
}

/// Texts are ordered like words in a dictionary: the first character in which they
/// differ decides, by its code, and the beginning of a text comes before it.
pub proof fn law_texts_are_ordered_like_words(
    p: Seq<char>,
    c: char,
    d: char,
    a: Seq<char>,
    b: Seq<char>,
)
    ensures
        c != d ==> (text_lt(p + seq![c] + a, p + seq![d] + b) <==> (c as int) < (d as int)),
        text_lt(p, p + seq![c] + a),
        !text_lt(p + seq![c] + a, p),
        !text_lt(p, p),
    decreases p.len(),
{
    let x = p + seq![c] + a;
    let y = p + seq![d] + b;
    if p.len() == 0 {
        assert(x.first() == c && y.first() == d);
    } else {
        let q = p.drop_first();
        assert(x.first() == p.first() && y.first() == p.first());
        assert(x.drop_first() =~= q + seq![c] + a);
        assert(y.drop_first() =~= q + seq![d] + b);
        law_texts_are_ordered_like_words(q, c, d, a, b);
    }
}

} // verus!
