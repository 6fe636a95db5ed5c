//! A map from string keys to values that keeps its entries in ascending key
//! order (byte order of the UTF-8 text, which is code-point order), with
//! every key stored once: the iteration order of an ordered map.

use vstd::prelude::*;
use crate::text::chars_of;

verus! {

/// Lexicographic order on character sequences, by code point.
pub open spec fn seq_lt(a: Seq<char>, b: Seq<char>) -> bool
    decreases a.len(),
{
    if a.len() == 0 {
        b.len() > 0
    } else if b.len() == 0 {
        false
    } else if a[0] != b[0] {
        (a[0] as int) < (b[0] as int)
    } else {
        seq_lt(a.drop_first(), b.drop_first())
    }
}

pub proof fn lemma_seq_lt_irreflexive(a: Seq<char>)
    ensures
        !seq_lt(a, a),
    decreases a.len(),
{
    if a.len() > 0 {
        lemma_seq_lt_irreflexive(a.drop_first());
    }
}

pub proof fn lemma_seq_lt_total(a: Seq<char>, b: Seq<char>)
    ensures
        a == b || seq_lt(a, b) || seq_lt(b, a),
    decreases a.len(),
{
    if a.len() > 0 && b.len() > 0 && a[0] == b[0] {
        lemma_seq_lt_total(a.drop_first(), b.drop_first());
        if a.drop_first() == b.drop_first() {
            assert(a =~= seq![a[0]] + a.drop_first());
            assert(b =~= seq![b[0]] + b.drop_first());
        }
    } else if a.len() == 0 && b.len() == 0 {
        assert(a =~= b);
    } else if a.len() > 0 && b.len() > 0 {
        assert((a[0] as int) != (b[0] as int));
    }
}

pub proof fn lemma_seq_lt_transitive(a: Seq<char>, b: Seq<char>, c: Seq<char>)
    requires
        seq_lt(a, b),
        seq_lt(b, c),
    ensures
        seq_lt(a, c),
    decreases a.len(),
{
    if a.len() > 0 && b.len() > 0 && c.len() > 0 && a[0] == b[0] && b[0] == c[0] {
        lemma_seq_lt_transitive(a.drop_first(), b.drop_first(), c.drop_first());
    }
}

/// Exact comparison of two character sequences in that order.
pub fn chars_lt(a: &[char], b: &[char]) -> (r: bool)
    ensures
        r == seq_lt(a@, b@),
{
    let mut i: usize = 0;
    assert(a@.skip(0) =~= a@);
    assert(b@.skip(0) =~= b@);
    while i < a.len() && i < b.len() && a[i] == b[i]
        invariant
            i <= a.len(),
            i <= b.len(),
            seq_lt(a@, b@) == seq_lt(a@.skip(i as int), b@.skip(i as int)),
        decreases a.len() - i,
    {
        assert(a@.skip(i as int).drop_first() =~= a@.skip(i + 1));
        assert(b@.skip(i as int).drop_first() =~= b@.skip(i + 1));
        i += 1;
    }
    let ghost sa = a@.skip(i as int);
    let ghost sb = b@.skip(i as int);
    if i == a.len() {
        assert(sa.len() == 0);
        i < b.len()
    } else if i == b.len() {
        assert(sb.len() == 0);
        false
    } else {
        assert(sa[0] == a@[i as int] && sb[0] == b@[i as int]);
        a[i] < b[i]
    }
}

/// Key of the `i`-th entry.
pub open spec fn ekey<V>(e: Seq<(String, V)>, i: int) -> Seq<char> {
    e[i].0@
}

/// Keys strictly ascending (hence each key stored once).
pub open spec fn ascending<V>(e: Seq<(String, V)>) -> bool {
    forall|i: int, j: int| 0 <= i < j < e.len() ==> seq_lt(#[trigger] ekey(e, i), #[trigger] ekey(e, j))
}

/// The map that a list of entries stands for.
pub open spec fn entries_map<V>(e: Seq<(String, V)>) -> Map<Seq<char>, V> {
    Map::new(
        |k: Seq<char>| exists|i: int| 0 <= i < e.len() && ekey(e, i) == k,
        |k: Seq<char>| e[choose|i: int| 0 <= i < e.len() && ekey(e, i) == k].1,
    )
}

proof fn lemma_entries_map_at<V>(e: Seq<(String, V)>, i: int)
    requires
        ascending(e),
        0 <= i < e.len(),
    ensures
        entries_map(e).contains_key(ekey(e, i)),
        entries_map(e)[ekey(e, i)] == e[i].1,
{
    let k = ekey(e, i);
    assert(exists|j: int| 0 <= j < e.len() && ekey(e, j) == k);
    let j = choose|j: int| 0 <= j < e.len() && ekey(e, j) == k;
    if j != i {
        lemma_seq_lt_irreflexive(k);
        if j < i {
            assert(seq_lt(ekey(e, j), ekey(e, i)));
        } else {
            assert(seq_lt(ekey(e, i), ekey(e, j)));
        }
    }
}

fn chars_eq_string(s: &String, kc: &Vec<char>) -> (r: bool)
    ensures
        r == (s@ == kc@),
{
    let sc = chars_of(s.as_str());
    crate::text::chars_eq(sc.as_slice(), kc.as_slice())
}

/// Inserts or replaces `key` in an ascending entry list.
fn insert_sorted<V>(entries: &mut Vec<(String, V)>, key: String, value: V)
    requires
        ascending(old(entries)@),
    ensures
        ascending(final(entries)@),
        entries_map(final(entries)@) == entries_map(old(entries)@).insert(key@, value),
{
    let ghost old_e = entries@;
    let ghost k = key@;
    let kc = chars_of(key.as_str());
    let mut i: usize = 0;
    let n = entries.len();
    while i < n
        invariant
            n == entries@.len(),
            entries@ == old_e,
            i <= n,
            kc@ == k,
            forall|j: int| 0 <= j < i ==> seq_lt(#[trigger] ekey(old_e, j), k),
        ensures
            i <= n,
            forall|j: int| 0 <= j < i ==> seq_lt(#[trigger] ekey(old_e, j), k),
            i < n ==> !seq_lt(ekey(old_e, i as int), k),
        decreases n - i,
    {
        let ki = chars_of(entries[i].0.as_str());
        if !chars_lt(ki.as_slice(), kc.as_slice()) {
            break;
        }
        i += 1;
    }
    if i < n && chars_eq_string(&entries[i].0, &kc) {
        entries.set(i, (key, value));
        proof {
            let e = entries@;
            assert forall|a: int, b: int| 0 <= a < b < e.len() implies seq_lt(
                #[trigger] ekey(e, a),
                #[trigger] ekey(e, b),
            ) by {
                assert(ekey(old_e, a) == ekey(e, a));
                assert(ekey(old_e, b) == ekey(e, b));
                assert(seq_lt(ekey(old_e, a), ekey(old_e, b)));
            }
            let target = entries_map(old_e).insert(k, value);
            assert forall|q: Seq<char>| #![auto] entries_map(e).contains_key(q) <==> target.contains_key(q) by {
                if target.contains_key(q) {
                    if q == k {
                        assert(ekey(e, i as int) == q);
                    } else {
                        let j = choose|j: int| 0 <= j < old_e.len() && ekey(old_e, j) == q;
                        assert(ekey(e, j) == q);
                    }
                }
                if entries_map(e).contains_key(q) {
                    let j = choose|j: int| 0 <= j < e.len() && ekey(e, j) == q;
                    if j != i {
                        assert(ekey(old_e, j) == q);
                    }
                }
            }
            assert forall|q: Seq<char>| #[trigger] entries_map(e).contains_key(q) implies entries_map(e)[q] == target[q] by {
                let j = choose|j: int| 0 <= j < e.len() && ekey(e, j) == q;
                lemma_entries_map_at(e, j);
                if j != i {
                    lemma_entries_map_at(old_e, j);
                    assert(ekey(old_e, j) == q);
                    if q == k {
                        assert(seq_lt(ekey(old_e, j), ekey(old_e, i as int)) || seq_lt(ekey(old_e, i as int), ekey(old_e, j)));
                        lemma_seq_lt_irreflexive(q);
                    }
                }
            }
            assert(entries_map(e) =~= target);
        }
    } else {
        proof {
            if i < n {
                lemma_seq_lt_total(ekey(old_e, i as int), k);
                assert(seq_lt(k, ekey(old_e, i as int)));
            }
        }
        entries.insert(i, (key, value));
        proof {
            let e = entries@;
            assert forall|b: int| i < b < e.len() implies seq_lt(k, #[trigger] ekey(e, b)) by {
                assert(ekey(e, b) == ekey(old_e, b - 1));
                if b - 1 > i {
                    assert(seq_lt(ekey(old_e, i as int), ekey(old_e, b - 1)));
                    lemma_seq_lt_transitive(k, ekey(old_e, i as int), ekey(old_e, b - 1));
                }
            }
            assert forall|a: int, b: int| 0 <= a < b < e.len() implies seq_lt(
                #[trigger] ekey(e, a),
                #[trigger] ekey(e, b),
            ) by {
                if b < i {
                    assert(seq_lt(ekey(old_e, a), ekey(old_e, b)));
                } else if b == i {
                    assert(ekey(old_e, a) == ekey(e, a));
                } else if a == i {
                } else if a < i {
                    assert(seq_lt(ekey(old_e, a), k));
                    lemma_seq_lt_transitive(ekey(old_e, a), k, ekey(e, b));
                } else {
                    assert(seq_lt(ekey(old_e, a - 1), ekey(old_e, b - 1)));
                }
            }
            let target = entries_map(old_e).insert(k, value);
            assert forall|q: Seq<char>| #![auto] entries_map(e).contains_key(q) <==> target.contains_key(q) by {
                if target.contains_key(q) {
                    if q == k {
                        assert(ekey(e, i as int) == q);
                    } else {
                        let j = choose|j: int| 0 <= j < old_e.len() && ekey(old_e, j) == q;
                        if j < i {
                            assert(ekey(e, j) == q);
                        } else {
                            assert(ekey(e, j + 1) == q);
                        }
                    }
                }
                if entries_map(e).contains_key(q) {
                    let j = choose|j: int| 0 <= j < e.len() && ekey(e, j) == q;
                    if j < i {
                        assert(ekey(old_e, j) == q);
                    } else if j > i {
                        assert(ekey(old_e, j - 1) == q);
                    }
                }
            }
            assert forall|q: Seq<char>| #[trigger] entries_map(e).contains_key(q) implies entries_map(e)[q] == target[q] by {
                let j = choose|j: int| 0 <= j < e.len() && ekey(e, j) == q;
                lemma_entries_map_at(e, j);
                if j != i {
                    let oj = if j < i { j } else { j - 1 };
                    lemma_entries_map_at(old_e, oj);
                    assert(ekey(old_e, oj) == q);
                    if q == k {
                        lemma_seq_lt_irreflexive(q);
                        if j < i {
                            assert(seq_lt(ekey(old_e, j), k));
                        } else {
                            assert(seq_lt(k, ekey(e, j)));
                        }
                    }
                }
            }
            assert(entries_map(e) =~= target);
        }
    }
}

/// Ordered map from string keys to values.
pub struct SortedMap<V> {
    entries: Vec<(String, V)>,
}

impl<V> View for SortedMap<V> {
    type V = Map<Seq<char>, V>;

    /// The map these entries stand for.
    closed spec fn view(&self) -> Map<Seq<char>, V> {
        entries_map(self.entries@)
    }
}

impl<V> SortedMap<V> {
    #[verifier::type_invariant]
    closed spec fn wf(&self) -> bool {
        ascending(self.entries@)
    }

    pub closed spec fn len_spec(&self) -> nat {
        self.entries@.len()
    }

    pub closed spec fn key_at(&self, i: int) -> Seq<char> {
        ekey(self.entries@, i)
    }

    pub closed spec fn value_at(&self, i: int) -> V {
        self.entries@[i].1
    }

    /// The keys, in stored (ascending) order.
    pub open spec fn keys(&self) -> Seq<Seq<char>> {
        Seq::new(self.len_spec() as nat, |i: int| self.key_at(i))
    }

    /// Every stored entry is in the map, and the map holds nothing else.
    pub proof fn lemma_view_entries(&self)
        ensures
            forall|k: Seq<char>| #[trigger] self.view().contains_key(k) <==> exists|i: int| 0 <= i < self.len_spec() && self.key_at(i) == k,
    {
        assert forall|k: Seq<char>| #[trigger] self.view().contains_key(k) <==> exists|i: int| 0 <= i < self.len_spec() && self.key_at(i) == k by {
            if exists|i: int| 0 <= i < self.len_spec() && self.key_at(i) == k {
                let i = choose|i: int| 0 <= i < self.len_spec() && self.key_at(i) == k;
                assert(0 <= i < self.entries@.len() && ekey(self.entries@, i) == k);
            }
            if self.view().contains_key(k) {
                let i = choose|i: int| 0 <= i < self.entries@.len() && ekey(self.entries@, i) == k;
                assert(self.key_at(i) == k);
            }
        }
    }

    /// Each key of the map is stored at some position, with the value the
    /// map gives it.
    pub proof fn lemma_view_value(&self, k: Seq<char>)
        requires
            self.view().contains_key(k),
        ensures
            exists|i: int| 0 <= i < self.len_spec() && self.key_at(i) == k && self.value_at(i) == self.view()[k],
    {
        let e = self.entries@;
        let j = choose|j: int| 0 <= j < e.len() && ekey(e, j) == k;
        assert(0 <= j < self.len_spec() && self.key_at(j) == k && self.value_at(j) == self.view()[k]);
    }

    pub fn new() -> (m: Self)
        ensures
            m.len_spec() == 0,
            m.view() == Map::<Seq<char>, V>::empty(),
    {
        let m = SortedMap { entries: Vec::new() };
        assert(m.view() =~= Map::<Seq<char>, V>::empty());
        m
    }

    pub fn len(&self) -> (n: usize)
        ensures
            n == self.len_spec(),
    {
        self.entries.len()
    }

    pub fn is_empty(&self) -> (b: bool)
        ensures
            b == (self.len_spec() == 0),
    {
        self.entries.len() == 0
    }

    /// The `i`-th entry in ascending key order.
    pub fn entry(&self, i: usize) -> (e: (&String, &V))
        requires
            i < self.len_spec(),
        ensures
            e.0@ == self.key_at(i as int),
            *e.1 == self.value_at(i as int),
            self.view().contains_key(e.0@),
            self.view()[e.0@] == *e.1,
    {
        proof {
            use_type_invariant(self);
            lemma_entries_map_at(self.entries@, i as int);
        }
        let e = &self.entries[i];
        (&e.0, &e.1)
    }

    /// The value stored under `key`.
    pub fn get(&self, key: &str) -> (r: Option<&V>)
        ensures
            match r {
                Some(v) => self.view().contains_key(key@) && *v == self.view()[key@],
                None => !self.view().contains_key(key@),
            },
    {
        proof { use_type_invariant(self); }
        let kc = chars_of(key);
        let mut i: usize = 0;
        while i < self.entries.len()
            invariant
                i <= self.entries@.len(),
                kc@ == key@,
                ascending(self.entries@),
                forall|j: int| 0 <= j < i ==> ekey(self.entries@, j) != key@,
            decreases self.entries@.len() - i,
        {
            if chars_eq_string(&self.entries[i].0, &kc) {
                proof { lemma_entries_map_at(self.entries@, i as int); }
                return Some(&self.entries[i].1);
            }
            i += 1;
        }
        None
    }

    /// Inserts or replaces the value under `key`, keeping keys ascending.
    pub fn insert(&mut self, key: String, value: V)
        ensures
            final(self).view() == old(self).view().insert(key@, value),
    {
        proof { use_type_invariant(&*self); }
        let mut entries: Vec<(String, V)> = Vec::new();
        std::mem::swap(&mut entries, &mut self.entries);
        insert_sorted(&mut entries, key, value);
        self.entries = entries;
    }
}

} // verus!
