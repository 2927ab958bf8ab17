//! Orders: of texts, of numbers, and maps whose keys are texts in order.
use vstd::prelude::*;

use crate::text;

verus! {

/// Whether `a` comes before `b` in the order of their characters, one by one;
/// this is also the order of their UTF-8 bytes.
pub open spec fn before(a: Seq<char>, b: Seq<char>) -> bool
    decreases a.len(),
{
    if b.len() == 0 {
        false
    } else if a.len() == 0 {
        true
    } else if a[0] != b[0] {
        a[0] < b[0]
    } else {
        before(a.skip(1), b.skip(1))
    }
}

pub proof fn lemma_before_irreflexive(a: Seq<char>)
    ensures
        !before(a, a),
    decreases a.len(),
{
    if a.len() > 0 {
        lemma_before_irreflexive(a.skip(1));
    }
}

pub proof fn lemma_before_total(a: Seq<char>, b: Seq<char>)
    ensures
        before(a, b) || before(b, a) || a == b,
    decreases a.len(),
{
    if a.len() > 0 && b.len() > 0 && a[0] == b[0] {
        lemma_before_total(a.skip(1), b.skip(1));
        if a.skip(1) == b.skip(1) {
            assert(a =~= seq![a[0]] + a.skip(1));
            assert(b =~= seq![b[0]] + b.skip(1));
        }
    } else if a.len() == 0 && b.len() == 0 {
        assert(a =~= b);
    }
}

pub proof fn lemma_before_transitive(a: Seq<char>, b: Seq<char>, c: Seq<char>)
    requires
        before(a, b),
        before(b, c),
    ensures
        before(a, c),
    decreases a.len(),
{
    if a.len() > 0 && b.len() > 0 && c.len() > 0 && a[0] == b[0] && b[0] == c[0] {
        lemma_before_transitive(a.skip(1), b.skip(1), c.skip(1));
    }
}

pub proof fn lemma_before_asymmetric(a: Seq<char>, b: Seq<char>)
    requires
        before(a, b),
    ensures
        !before(b, a),
        a != b,
{
    if before(b, a) {
        lemma_before_transitive(a, b, a);
    }
    lemma_before_irreflexive(a);
}

/// Whether `a` comes before `b`.
pub fn comes_before(a: &str, b: &str) -> (r: bool)
    ensures
        r == before(a@, b@),
{
    let s = text::chars_of(a);
    let t = text::chars_of(b);
    let mut i: usize = 0;
    assert(s@.skip(0) == s@ && t@.skip(0) == t@);
    while i < s.len() && i < t.len() && s[i] == t[i]
        invariant
            i <= s.len(),
            i <= t.len(),
            before(s@, t@) == before(s@.skip(i as int), t@.skip(i as int)),
        decreases s.len() - i,
    {
        assert(s@.skip(i as int).skip(1) == s@.skip(i + 1));
        assert(t@.skip(i as int).skip(1) == t@.skip(i + 1));
        i = i + 1;
    }
    if i == t.len() {
        false
    } else if i == s.len() {
        true
    } else {
        s[i] < t[i]
    }
}

/// Keys in strictly ascending order.
pub open spec fn ascending_keys<V>(entries: Seq<(String, V)>) -> bool {
    forall|i: int, j: int|
        0 <= i < j < entries.len() ==> before(#[trigger] entries[i].0@, #[trigger] entries[j].0@)
}

/// Whether `key` is among the entries.
pub open spec fn has_key<V>(entries: Seq<(String, V)>, key: Seq<char>) -> bool {
    exists|i: int| 0 <= i < entries.len() && (#[trigger] entries[i]).0@ == key
}

/// The position of `key` among the entries.
pub open spec fn key_position<V>(entries: Seq<(String, V)>, key: Seq<char>) -> int {
    choose|i: int| 0 <= i < entries.len() && (#[trigger] entries[i]).0@ == key
}

/// A map from texts, kept in the order of its keys.
pub struct TextMap<V> {
    pub entries: Vec<(String, V)>,
}

impl<V> View for TextMap<V> {
    type V = Map<Seq<char>, V>;

    open spec fn view(&self) -> Map<Seq<char>, V> {
        Map::new(
            |key: Seq<char>| has_key(self.entries@, key),
            |key: Seq<char>| self.entries@[key_position(self.entries@, key)].1,
        )
    }
}

impl<V> TextMap<V> {
    /// Every key stands once, and keys are in ascending order.
    pub open spec fn wf(self) -> bool {
        ascending_keys(self.entries@)
    }

    pub proof fn lemma_entry(self, i: int)
        requires
            self.wf(),
            0 <= i < self.entries@.len(),
        ensures
            self@.dom().contains(self.entries@[i].0@),
            self@[self.entries@[i].0@] == self.entries@[i].1,
    {
        let key = self.entries@[i].0@;
        assert(has_key(self.entries@, key));
        let k = key_position(self.entries@, key);
        if k < i {
            lemma_before_irreflexive(key);
        } else if k > i {
            lemma_before_irreflexive(key);
        }
    }

    pub fn new() -> (r: TextMap<V>)
        ensures
            r.wf(),
            r@ == Map::<Seq<char>, V>::empty(),
            r.entries@.len() == 0,
    {
        let r = TextMap { entries: Vec::new() };
        assert(r@ =~= Map::<Seq<char>, V>::empty());
        r
    }

    /// The position where `key` is, or where it would have to go.
    fn place(&self, key: &str) -> (r: (usize, bool))
        requires
            self.wf(),
        ensures
            r.0 <= self.entries@.len(),
            forall|j: int| 0 <= j < r.0 ==> before((#[trigger] self.entries@[j]).0@, key@),
            r.1 ==> r.0 < self.entries@.len() && self.entries@[r.0 as int].0@ == key@,
            !r.1 ==> forall|j: int|
                r.0 <= j < self.entries@.len() ==> before(key@, (#[trigger] self.entries@[j]).0@),
    {
        let mut i: usize = 0;
        while i < self.entries.len() && comes_before(self.entries[i].0.as_str(), key)
            invariant
                i <= self.entries@.len(),
                forall|j: int| 0 <= j < i ==> before((#[trigger] self.entries@[j]).0@, key@),
            decreases self.entries.len() - i,
        {
            i = i + 1;
        }
        let found = i < self.entries.len() && text::same_str(self.entries[i].0.as_str(), key);
        proof {
            if !found && i < self.entries@.len() {
                lemma_before_total(self.entries@[i as int].0@, key@);
                assert forall|j: int| i <= j < self.entries@.len() implies before(
                    key@,
                    (#[trigger] self.entries@[j]).0@,
                ) by {
                    if j > i {
                        lemma_before_transitive(
                            key@,
                            self.entries@[i as int].0@,
                            self.entries@[j].0@,
                        );
                    }
                }
            }
        }
        (i, found)
    }

    pub fn get(&self, key: &str) -> (r: Option<&V>)
        requires
            self.wf(),
        ensures
            match r {
                Some(v) => self@.dom().contains(key@) && self@[key@] == *v,
                None => !self@.dom().contains(key@),
            },
    {
        let (i, found) = self.place(key);
        if found {
            proof {
                self.lemma_entry(i as int);
            }
            Some(&self.entries[i].1)
        } else {
            proof {
                if has_key(self.entries@, key@) {
                    let k = key_position(self.entries@, key@);
                    lemma_before_irreflexive(key@);
                    assert(k < i || k >= i);
                }
            }
            None
        }
    }

    /// Sets the value of a key.
    pub fn insert(&mut self, key: String, value: V)
        requires
            old(self).wf(),
        ensures
            final(self).wf(),
            final(self)@ == old(self)@.insert(key@, value),
    {
        let (i, found) = self.place(key.as_str());
        let ghost was = *self;
        let ghost name = key@;
        if found {
            let ghost old_key = self.entries@[i as int].0;
            self.entries.set(i, (key, value));
            proof {
                let now = *self;
                assert(now.entries@[i as int].0@ == was.entries@[i as int].0@);
                assert forall|a: int, b: int| 0 <= a < b < now.entries@.len() implies before(
                    #[trigger] now.entries@[a].0@,
                    #[trigger] now.entries@[b].0@,
                ) by {
                    assert(now.entries@[a].0@ == was.entries@[a].0@);
                    assert(now.entries@[b].0@ == was.entries@[b].0@);
                }
                assert(now.wf());
                assert forall|k: Seq<char>|
                    now@.dom().contains(k) == was@.insert(name, value).dom().contains(k) by {
                    if has_key(now.entries@, k) {
                        let p = key_position(now.entries@, k);
                        assert(was.entries@[p].0@ == k);
                    }
                    if has_key(was.entries@, k) {
                        let p = key_position(was.entries@, k);
                        assert(now.entries@[p].0@ == k);
                    }
                    if k == name {
                        assert(now.entries@[i as int].0@ == k);
                    }
                }
                assert forall|k: Seq<char>| now@.dom().contains(k) implies now@[k]
                    == was@.insert(name, value)[k] by {
                    let p = key_position(now.entries@, k);
                    now.lemma_entry(p);
                    was.lemma_entry(p);
                    if k == name {
                        now.lemma_entry(i as int);
                    } else if p == i {
                        assert(k == name);
                    }
                }
                assert(now@ =~= was@.insert(name, value));
            }
        } else {
            self.entries.insert(i, (key, value));
            proof {
                let now = *self;
                assert(now.entries@ == was.entries@.insert(i as int, (key, value)));
                assert forall|a: int, b: int| 0 <= a < b < now.entries@.len() implies before(
                    #[trigger] now.entries@[a].0@,
                    #[trigger] now.entries@[b].0@,
                ) by {
                    let wa = if a < i {
                        a
                    } else {
                        a - 1
                    };
                    let wb = if b < i {
                        b
                    } else {
                        b - 1
                    };
                    if a != i {
                        assert(now.entries@[a] == was.entries@[wa]);
                    }
                    if b != i {
                        assert(now.entries@[b] == was.entries@[wb]);
                    }
                }
                assert(now.wf());
                assert forall|k: Seq<char>|
                    now@.dom().contains(k) == was@.insert(name, value).dom().contains(k) by {
                    if has_key(now.entries@, k) {
                        let p = key_position(now.entries@, k);
                        if p < i {
                            assert(was.entries@[p].0@ == k);
                        } else if p > i {
                            assert(was.entries@[p - 1].0@ == k);
                        }
                    }
                    if has_key(was.entries@, k) {
                        let p = key_position(was.entries@, k);
                        if p < i {
                            assert(now.entries@[p].0@ == k);
                        } else {
                            assert(now.entries@[p + 1].0@ == k);
                        }
                    }
                    if k == name {
                        assert(now.entries@[i as int].0@ == k);
                    }
                }
                assert forall|k: Seq<char>| now@.dom().contains(k) implies now@[k]
                    == was@.insert(name, value)[k] by {
                    let p = key_position(now.entries@, k);
                    now.lemma_entry(p);
                    if p < i {
                        was.lemma_entry(p);
                        lemma_before_irreflexive(k);
                    } else if p > i {
                        was.lemma_entry(p - 1);
                        assert(now.entries@[p] == was.entries@[p - 1]);
                        lemma_before_irreflexive(k);
                    } else {
                        assert(k == name);
                    }
                }
                assert(now@ =~= was@.insert(name, value));
            }
        }
    }
}

/// Numbers in ascending order, equal ones side by side.
pub open spec fn sorted(s: Seq<u64>) -> bool {
    forall|i: int, j: int| 0 <= i < j < s.len() ==> s[i] <= s[j]
}

/// The first position at or after `from` that holds more than `x`.
pub open spec fn place_of(s: Seq<u64>, x: u64, from: int) -> int
    decreases s.len() - from,
{
    if from < 0 || from >= s.len() || s[from] > x {
        from
    } else {
        place_of(s, x, from + 1)
    }
}

/// `s` in ascending order.
pub open spec fn ascending(s: Seq<u64>) -> Seq<u64>
    decreases s.len(),
{
    if s.len() == 0 {
        seq![]
    } else {
        let front = ascending(s.drop_last());
        front.insert(place_of(front, s.last(), 0), s.last())
    }
}

proof fn lemma_place_of(s: Seq<u64>, x: u64, from: int)
    requires
        sorted(s),
        0 <= from <= s.len(),
        forall|j: int| 0 <= j < from ==> s[j] <= x,
    ensures
        from <= place_of(s, x, from) <= s.len(),
        forall|j: int| 0 <= j < place_of(s, x, from) ==> s[j] <= x,
        forall|j: int| place_of(s, x, from) <= j < s.len() ==> s[j] > x,
    decreases s.len() - from,
{
    if from < s.len() && s[from] <= x {
        lemma_place_of(s, x, from + 1);
    }
}

/// Sorting orders the numbers and keeps each as often as it was.
pub proof fn lemma_ascending(s: Seq<u64>)
    ensures
        sorted(ascending(s)),
        ascending(s).len() == s.len(),
        ascending(s).to_multiset() == s.to_multiset(),
    decreases s.len(),
{
    broadcast use vstd::multiset::group_multiset_axioms;

    if s.len() == 0 {
        assert(ascending(s) =~= s);
    } else {
        lemma_ascending(s.drop_last());
        let front = ascending(s.drop_last());
        lemma_place_of(front, s.last(), 0);
        let p = place_of(front, s.last(), 0);
        let r = front.insert(p, s.last());
        assert forall|i: int, j: int| 0 <= i < j < r.len() implies r[i] <= r[j] by {
            let fi = if i < p {
                i
            } else {
                i - 1
            };
            let fj = if j < p {
                j
            } else {
                j - 1
            };
            if i != p {
                assert(r[i] == front[fi]);
            }
            if j != p {
                assert(r[j] == front[fj]);
            }
        }
        vstd::seq_lib::to_multiset_insert(front, p, s.last());
        vstd::seq_lib::to_multiset_build(s.drop_last(), s.last());
        assert(s.drop_last().push(s.last()) =~= s);
    }
}

/// Sorts numbers.
pub fn sort(values: &Vec<u64>) -> (r: Vec<u64>)
    ensures
        r@ == ascending(values@),
        r@.len() == values@.len(),
{
    let mut out: Vec<u64> = Vec::new();
    let mut i: usize = 0;
    while i < values.len()
        invariant
            i <= values.len(),
            out@ == ascending(values@.take(i as int)),
            out@.len() == i,
        decreases values.len() - i,
    {
        assert(values@.take(i + 1).drop_last() == values@.take(i as int));
        let x: u64 = values[i];
        proof {
            lemma_ascending(values@.take(i as int));
            lemma_place_of(out@, x, 0);
        }
        let mut p: usize = 0;
        while p < out.len() && out[p] <= x
            invariant
                p <= out.len(),
                place_of(out@, x, 0) == place_of(out@, x, p as int),
            decreases out.len() - p,
        {
            p = p + 1;
        }
        out.insert(p, x);
        i = i + 1;
    }
    assert(values@.take(i as int) == values@);
    out
}

/// The first place at or after `at` whose element `x` comes before.
pub open spec fn slot<T>(s: Seq<T>, x: T, less: spec_fn(T, T) -> bool, at: int) -> int
    decreases s.len() - at,
{
    if at < 0 || at >= s.len() || less(x, s[at]) {
        at
    } else {
        slot(s, x, less, at + 1)
    }
}

/// Elements in order; those that come before neither keep the order they had.
pub open spec fn arranged<T>(s: Seq<T>, less: spec_fn(T, T) -> bool) -> Seq<T>
    decreases s.len(),
{
    if s.len() == 0 {
        s
    } else {
        let front = arranged(s.drop_last(), less);
        front.insert(slot(front, s.last(), less, 0), s.last())
    }
}

/// Whether a relation can put elements in order.
pub open spec fn orders<T>(less: spec_fn(T, T) -> bool) -> bool {
    &&& forall|a: T, b: T| #[trigger] less(a, b) ==> !less(b, a)
    &&& forall|a: T, b: T, c: T|
        !#[trigger] less(b, a) && !#[trigger] less(c, b) ==> !less(c, a)
}

proof fn lemma_slot<T>(s: Seq<T>, x: T, less: spec_fn(T, T) -> bool, at: int)
    requires
        0 <= at <= s.len(),
    ensures
        at <= slot(s, x, less, at) <= s.len(),
        forall|k: int| at <= k < slot(s, x, less, at) ==> !less(x, #[trigger] s[k]),
        slot(s, x, less, at) < s.len() ==> less(x, s[slot(s, x, less, at)]),
    decreases s.len() - at,
{
    if at < s.len() && !less(x, s[at]) {
        lemma_slot(s, x, less, at + 1);
    }
}

/// Putting elements in order keeps them all, and leaves none after one it comes before.
pub proof fn lemma_arranged<T>(s: Seq<T>, less: spec_fn(T, T) -> bool)
    requires
        orders(less),
    ensures
        arranged(s, less).to_multiset() == s.to_multiset(),
        arranged(s, less).len() == s.len(),
        forall|i: int, j: int|
            0 <= i < j < s.len() ==> !less(
                #[trigger] arranged(s, less)[j],
                #[trigger] arranged(s, less)[i],
            ),
    decreases s.len(),
{
    if s.len() > 0 {
        let front = arranged(s.drop_last(), less);
        let x = s.last();
        lemma_arranged(s.drop_last(), less);
        lemma_slot(front, x, less, 0);
        let p = slot(front, x, less, 0);
        let all = arranged(s, less);
        assert(all == front.insert(p, x));
        front.to_multiset_ensures();
        vstd::seq_lib::to_multiset_insert(front, p, x);
        s.drop_last().to_multiset_ensures();
        assert(s == s.drop_last().push(x));
        assert(s.to_multiset() == s.drop_last().to_multiset().insert(x));
        assert forall|i: int, j: int| 0 <= i < j < s.len() implies !less(
            #[trigger] all[j],
            #[trigger] all[i],
        ) by {
            let fi = if i < p {
                i
            } else {
                i - 1
            };
            let fj = if j < p {
                j
            } else {
                j - 1
            };
            if i != p && j != p {
                assert(all[i] == front[fi] && all[j] == front[fj]);
            } else if i == p {
                assert(all[j] == front[fj]);
                assert(less(x, front[p]));
                if fj > p {
                    assert(!less(front[fj], front[p]));
                    assert(!less(front[p], x));
                }
            } else {
                assert(all[i] == front[i]);
                assert(!less(x, front[i]));
            }
        }
    }
}

} // verus!
