//! A map from text to values, walked in the order of its keys.

use crate::text;
use vstd::prelude::*;

verus! {

/// The keys of `s` ascend, so none occurs twice.
pub open spec fn ascending<V>(s: Seq<(Seq<char>, V)>) -> bool {
    forall|i: int, j: int| 0 <= i < j < s.len() ==> text::before(#[trigger] s[i].0, #[trigger] s[j].0)
}

/// `s` with `value` under `key`: in place of what stood under it, or in its place in the order.
pub open spec fn put<V>(s: Seq<(Seq<char>, V)>, key: Seq<char>, value: V) -> Seq<(Seq<char>, V)>
    decreases s.len(),
{
    if s.len() == 0 {
        seq![(key, value)]
    } else if s[0].0 == key {
        seq![(key, value)] + s.skip(1)
    } else if text::before(key, s[0].0) {
        seq![(key, value)] + s
    } else {
        seq![s[0]] + put(s.skip(1), key, value)
    }
}

/// What stands under `key` in `s`.
pub open spec fn lookup<V>(s: Seq<(Seq<char>, V)>, key: Seq<char>) -> Option<V>
    decreases s.len(),
{
    if s.len() == 0 {
        None
    } else if s[0].0 == key {
        Some(s[0].1)
    } else {
        lookup(s.skip(1), key)
    }
}

/// The pairs put into an empty map one after another, a later one over an earlier one.
pub open spec fn gather<V>(pairs: Seq<(Seq<char>, V)>) -> Seq<(Seq<char>, V)>
    decreases pairs.len(),
{
    if pairs.len() == 0 {
        seq![]
    } else {
        put(gather(pairs.drop_last()), pairs.last().0, pairs.last().1)
    }
}

/// Where every key before `i` comes before `key` and none from `i` on does, a new entry goes to
/// `i`, or takes the place of the one that stands there.
proof fn lemma_put_at<V>(s: Seq<(Seq<char>, V)>, key: Seq<char>, value: V, i: int)
    requires
        0 <= i <= s.len(),
        forall|j: int| 0 <= j < i ==> text::before(#[trigger] s[j].0, key),
        i < s.len() ==> !text::before(s[i].0, key),
    ensures
        i < s.len() && s[i].0 == key ==> put(s, key, value) == s.update(i, (key, value)),
        i == s.len() || s[i].0 != key ==> put(s, key, value) == s.insert(i, (key, value)),
    decreases s.len(),
{
    if s.len() == 0 {
        assert(s.insert(0, (key, value)) =~= seq![(key, value)]);
    } else if i == 0 {
        text::lemma_before_total(s[0].0, key);
        if s[0].0 == key {
            assert(s.update(0, (key, value)) =~= seq![(key, value)] + s.skip(1));
        } else {
            assert(s.insert(0, (key, value)) =~= seq![(key, value)] + s);
        }
    } else {
        let rest = s.skip(1);
        assert(text::before(s[0].0, key));
        text::lemma_before_irreflexive(key);
        if text::before(key, s[0].0) {
            text::lemma_before_transitive(key, s[0].0, key);
        }
        assert forall|j: int| 0 <= j < i - 1 implies text::before(#[trigger] rest[j].0, key) by {
            assert(text::before(s[j + 1].0, key));
        }
        lemma_put_at(rest, key, value, i - 1);
        if i < s.len() && s[i].0 == key {
            assert(s.update(i, (key, value)) =~= seq![s[0]] + rest.update(i - 1, (key, value)));
        } else {
            assert(s.insert(i, (key, value)) =~= seq![s[0]] + rest.insert(i - 1, (key, value)));
        }
    }
}

/// Putting an entry into an ordered map leaves it ordered.
pub proof fn law_put_keeps_order<V>(s: Seq<(Seq<char>, V)>, key: Seq<char>, value: V)
    requires
        ascending(s),
    ensures
        ascending(put(s, key, value)),
        forall|i: int|
            0 <= i < put(s, key, value).len() ==> (#[trigger] put(s, key, value)[i]).0 == key
                || exists|j: int| 0 <= j < s.len() && s[j].0 == put(s, key, value)[i].0,
    decreases s.len(),
{
    let r = put(s, key, value);
    if s.len() == 0 {
    } else if s[0].0 == key {
        assert forall|i: int| 0 <= i < r.len() implies (#[trigger] r[i]).0 == s[i].0 by {}
    } else if text::before(key, s[0].0) {
        assert forall|i: int, j: int| 0 <= i < j < r.len() implies text::before(
            #[trigger] r[i].0,
            #[trigger] r[j].0,
        ) by {
            if i > 0 {
                assert(r[i] == s[i - 1]);
            }
            assert(r[j] == s[j - 1]);
            if i == 0 && j > 1 {
                assert(text::before(s[0].0, s[j - 1].0));
                text::lemma_before_transitive(key, s[0].0, s[j - 1].0);
            }
        }
        assert forall|i: int| 0 <= i < r.len() implies (#[trigger] r[i]).0 == key || exists|j: int|
            0 <= j < s.len() && s[j].0 == r[i].0 by {
            if i > 0 {
                assert(r[i] == s[i - 1]);
            }
        }
    } else {
        let rest = s.skip(1);
        assert forall|i: int, j: int| 0 <= i < j < rest.len() implies text::before(
            #[trigger] rest[i].0,
            #[trigger] rest[j].0,
        ) by {
            assert(text::before(s[i + 1].0, s[j + 1].0));
        }
        law_put_keeps_order(rest, key, value);
        let tail = put(rest, key, value);
        text::lemma_before_total(s[0].0, key);
        assert forall|j: int| 0 <= j < tail.len() implies text::before(s[0].0, (#[trigger] tail[j]).0) by {
            if tail[j].0 != key {
                let m = choose|m: int| 0 <= m < rest.len() && rest[m].0 == tail[j].0;
                assert(rest[m] == s[m + 1]);
                assert(text::before(s[0].0, s[m + 1].0));
            }
        }
        assert forall|i: int, j: int| 0 <= i < j < r.len() implies text::before(
            #[trigger] r[i].0,
            #[trigger] r[j].0,
        ) by {
            assert(r[j] == tail[j - 1]);
            if i > 0 {
                assert(r[i] == tail[i - 1]);
            }
        }
        assert forall|i: int| 0 <= i < r.len() implies (#[trigger] r[i]).0 == key || exists|j: int|
            0 <= j < s.len() && s[j].0 == r[i].0 by {
            if i == 0 {
                assert(s[0].0 == r[0].0);
            } else {
                assert(r[i] == tail[i - 1]);
                if tail[i - 1].0 != key {
                    let m = choose|m: int| 0 <= m < rest.len() && rest[m].0 == tail[i - 1].0;
                    assert(rest[m] == s[m + 1]);
                }
            }
        }
    }
}

/// In an ordered map every key comes before those behind it, and none stands twice.
pub proof fn law_keys_stand_once<V>(s: Seq<(Seq<char>, V)>, i: int, j: int)
    requires
        ascending(s),
        0 <= i < j < s.len(),
    ensures
        text::before(s[i].0, s[j].0),
        s[i].0 != s[j].0,
{
    text::lemma_before_irreflexive(s[i].0);
}

/// What was put under a key is found under it, and nothing else moved.
pub proof fn law_lookup_after_put<V>(
    s: Seq<(Seq<char>, V)>,
    key: Seq<char>,
    value: V,
    other: Seq<char>,
)
    requires
        ascending(s),
    ensures
        lookup(put(s, key, value), key) == Some(value),
        other != key ==> lookup(put(s, key, value), other) == lookup(s, other),
    decreases s.len(),
{
    let r = put(s, key, value);
    if s.len() == 0 {
        assert(r.skip(1) =~= s);
    } else if s[0].0 == key {
        assert(r.skip(1) =~= s.skip(1));
    } else if text::before(key, s[0].0) {
        assert(r.skip(1) =~= s);
    } else {
        let rest = s.skip(1);
        assert forall|i: int, j: int| 0 <= i < j < rest.len() implies text::before(
            #[trigger] rest[i].0,
            #[trigger] rest[j].0,
        ) by {
            assert(text::before(s[i + 1].0, s[j + 1].0));
        }
        law_lookup_after_put(rest, key, value, other);
        assert(r.skip(1) =~= put(rest, key, value));
    }
}

/// What stands under a key is the value of the first entry with that key; where no entry has it,
/// there is nothing.
pub proof fn law_lookup<V>(s: Seq<(Seq<char>, V)>, key: Seq<char>)
    ensures
        match lookup(s, key) {
            Some(v) => exists|i: int|
                0 <= i < s.len() && #[trigger] s[i] == (key, v) && forall|j: int|
                    0 <= j < i ==> (#[trigger] s[j]).0 != key,
            None => forall|j: int| 0 <= j < s.len() ==> (#[trigger] s[j]).0 != key,
        },
    decreases s.len(),
{
    if s.len() == 0 {
    } else if s[0].0 == key {
        assert(s[0] == (key, s[0].1));
    } else {
        let rest = s.skip(1);
        law_lookup(rest, key);
        match lookup(rest, key) {
            Some(v) => {
                let i = choose|i: int|
                    0 <= i < rest.len() && #[trigger] rest[i] == (key, v) && forall|j: int|
                        0 <= j < i ==> (#[trigger] rest[j]).0 != key;
                assert(s[i + 1] == rest[i]);
                assert forall|j: int| 0 <= j < i + 1 implies (#[trigger] s[j]).0 != key by {
                    if j > 0 {
                        assert(rest[j - 1] == s[j]);
                    }
                }
            },
            None => {
                assert forall|j: int| 0 <= j < s.len() implies (#[trigger] s[j]).0 != key by {
                    if j > 0 {
                        assert(rest[j - 1] == s[j]);
                    }
                }
            },
        }
    }
}

/// Pairs that are gathered stand in the order of their keys, and under each key stands the value
/// of the last pair with it; where no pair has it, there is nothing.
pub proof fn law_gather<V>(pairs: Seq<(Seq<char>, V)>, key: Seq<char>)
    ensures
        ascending(gather(pairs)),
        match lookup(gather(pairs), key) {
            Some(v) => exists|i: int|
                0 <= i < pairs.len() && #[trigger] pairs[i] == (key, v) && forall|j: int|
                    i < j < pairs.len() ==> (#[trigger] pairs[j]).0 != key,
            None => forall|j: int| 0 <= j < pairs.len() ==> (#[trigger] pairs[j]).0 != key,
        },
    decreases pairs.len(),
{
    lemma_gather_ascending(pairs);
    if pairs.len() > 0 {
        let front = pairs.drop_last();
        let last = pairs.last();
        law_gather(front, key);
        lemma_gather_ascending(front);
        law_lookup_after_put(gather(front), last.0, last.1, key);
        if last.0 == key {
            assert(pairs[pairs.len() - 1] == (key, last.1));
        } else {
            match lookup(gather(front), key) {
                Some(v) => {
                    let i = choose|i: int|
                        0 <= i < front.len() && #[trigger] front[i] == (key, v) && forall|j: int|
                            i < j < front.len() ==> (#[trigger] front[j]).0 != key;
                    assert(pairs[i] == front[i]);
                    assert forall|j: int| i < j < pairs.len() implies (#[trigger] pairs[j]).0
                        != key by {
                        if j < front.len() {
                            assert(front[j] == pairs[j]);
                        }
                    }
                },
                None => {
                    assert forall|j: int| 0 <= j < pairs.len() implies (#[trigger] pairs[j]).0
                        != key by {
                        if j < front.len() {
                            assert(front[j] == pairs[j]);
                        }
                    }
                },
            }
        }
    }
}

/// The entries with something made of each value.
pub open spec fn mapped<V, W>(s: Seq<(Seq<char>, V)>, make: spec_fn(V) -> W) -> Seq<
    (Seq<char>, W),
> {
    Seq::new(s.len(), |i: int| (s[i].0, make(s[i].1)))
}

/// Putting an entry in and making something of the values come to the same in either order.
pub proof fn lemma_put_mapped<V, W>(
    s: Seq<(Seq<char>, V)>,
    key: Seq<char>,
    value: V,
    make: spec_fn(V) -> W,
)
    ensures
        mapped(put(s, key, value), make) == put(mapped(s, make), key, make(value)),
    decreases s.len(),
{
    let e = mapped(s, make);
    let made = (key, make(value));
    if s.len() == 0 {
        assert(mapped(seq![(key, value)], make) =~= seq![made]);
    } else if s[0].0 == key {
        assert(mapped(seq![(key, value)] + s.skip(1), make) =~= seq![made] + e.skip(1));
    } else if text::before(key, s[0].0) {
        assert(mapped(seq![(key, value)] + s, make) =~= seq![made] + e);
    } else {
        lemma_put_mapped(s.skip(1), key, value, make);
        assert(mapped(s.skip(1), make) =~= e.skip(1));
        assert(mapped(seq![s[0]] + put(s.skip(1), key, value), make) =~= seq![e[0]] + put(
            e.skip(1),
            key,
            make(value),
        ));
    }
}

/// Gathering pairs gives an ordered map.
pub proof fn lemma_gather_ascending<V>(pairs: Seq<(Seq<char>, V)>)
    ensures
        ascending(gather(pairs)),
    decreases pairs.len(),
{
    if pairs.len() > 0 {
        lemma_gather_ascending(pairs.drop_last());
        law_put_keeps_order(gather(pairs.drop_last()), pairs.last().0, pairs.last().1);
    }
}

/// What is put over an entry takes its place.
pub proof fn lemma_put_over<V>(s: Seq<(Seq<char>, V)>, key: Seq<char>, first: V, second: V)
    requires
        ascending(s),
    ensures
        put(put(s, key, first), key, second) == put(s, key, second),
    decreases s.len(),
{
    let one = put(s, key, first);
    if s.len() == 0 || s[0].0 == key || text::before(key, s[0].0) {
        assert(one[0] == (key, first));
        assert(put(one, key, second) =~= put(s, key, second));
    } else {
        lemma_put_over(s.skip(1), key, first, second);
        assert(one.skip(1) =~= put(s.skip(1), key, first));
        assert(one[0] == s[0]);
    }
}

/// Under two keys it does not matter which entry is put in first.
pub proof fn lemma_put_swaps<V>(s: Seq<(Seq<char>, V)>, k: Seq<char>, v: V, l: Seq<char>, w: V)
    requires
        k != l,
    ensures
        put(put(s, k, v), l, w) == put(put(s, l, w), k, v),
    decreases s.len(),
{
    text::lemma_before_total(k, l);
    if text::before(k, l) && text::before(l, k) {
        text::lemma_before_transitive(k, l, k);
        text::lemma_before_irreflexive(k);
    }
    let a = put(s, k, v);
    let b = put(s, l, w);
    let one = seq![(k, v)];
    let two = seq![(l, w)];
    if s.len() == 0 {
        assert(one.skip(1) =~= s);
        assert(two.skip(1) =~= s);
        assert(put(s, l, w) =~= two);
        assert(put(s, k, v) =~= one);
        if text::before(k, l) {
            assert(put(one, l, w) =~= one + put(s, l, w));
            assert(put(two, k, v) =~= one + two);
        } else {
            assert(put(one, l, w) =~= two + one);
            assert(put(two, k, v) =~= two + put(s, k, v));
        }
    } else {
        let head = s[0].0;
        if text::before(k, head) && text::before(head, l) {
            text::lemma_before_transitive(k, head, l);
        }
        if text::before(l, head) && text::before(head, k) {
            text::lemma_before_transitive(l, head, k);
        }
        text::lemma_before_total(k, head);
        text::lemma_before_total(l, head);
        let first = seq![s[0]];
        let rest = s.skip(1);
        if head == k {
            assert(a =~= one + rest);
            assert(a.skip(1) =~= rest);
            if text::before(l, k) {
                assert(b =~= two + s);
                assert(b.skip(1) =~= s);
                assert(put(a, l, w) =~= two + a);
                assert(put(b, k, v) =~= two + put(s, k, v));
            } else {
                assert(b =~= first + put(rest, l, w));
                assert(b.skip(1) =~= put(rest, l, w));
                assert(put(a, l, w) =~= one + put(rest, l, w));
                assert(put(b, k, v) =~= one + put(rest, l, w));
            }
        } else if head == l {
            assert(b =~= two + rest);
            assert(b.skip(1) =~= rest);
            if text::before(k, l) {
                assert(a =~= one + s);
                assert(a.skip(1) =~= s);
                assert(put(b, k, v) =~= one + b);
                assert(put(a, l, w) =~= one + put(s, l, w));
            } else {
                assert(a =~= first + put(rest, k, v));
                assert(a.skip(1) =~= put(rest, k, v));
                assert(put(b, k, v) =~= two + put(rest, k, v));
                assert(put(a, l, w) =~= two + put(rest, k, v));
            }
        } else if text::before(k, head) {
            assert(a =~= one + s);
            assert(a.skip(1) =~= s);
            if text::before(l, head) {
                assert(b =~= two + s);
                assert(b.skip(1) =~= s);
                if text::before(k, l) {
                    assert(put(a, l, w) =~= one + put(s, l, w));
                    assert(put(b, k, v) =~= one + b);
                } else {
                    assert(put(a, l, w) =~= two + a);
                    assert(put(b, k, v) =~= two + put(s, k, v));
                }
            } else {
                assert(put(a, l, w) =~= one + put(s, l, w));
                assert(b[0] == s[0]);
                assert(put(b, k, v) =~= one + b);
            }
        } else if text::before(l, head) {
            assert(b =~= two + s);
            assert(b.skip(1) =~= s);
            assert(a[0] == s[0]);
            assert(put(b, k, v) =~= two + put(s, k, v));
            assert(put(a, l, w) =~= two + a);
        } else {
            lemma_put_swaps(rest, k, v, l, w);
            assert(a.skip(1) =~= put(rest, k, v));
            assert(b.skip(1) =~= put(rest, l, w));
            assert(put(a, l, w) =~= first + put(put(rest, k, v), l, w));
            assert(put(b, k, v) =~= first + put(put(rest, l, w), k, v));
        }
    }
}

/// Gathering the entries of an ordered map gives that map.
pub proof fn law_gather_of_ordered<V>(pairs: Seq<(Seq<char>, V)>)
    requires
        ascending(pairs),
    ensures
        gather(pairs) == pairs,
    decreases pairs.len(),
{
    if pairs.len() > 0 {
        let front = pairs.drop_last();
        assert forall|i: int, j: int| 0 <= i < j < front.len() implies text::before(
            #[trigger] front[i].0,
            #[trigger] front[j].0,
        ) by {
            assert(text::before(pairs[i].0, pairs[j].0));
        }
        law_gather_of_ordered(front);
        assert forall|j: int| 0 <= j < front.len() implies text::before(
            #[trigger] front[j].0,
            pairs.last().0,
        ) by {
            assert(text::before(pairs[j].0, pairs[pairs.len() - 1].0));
        }
        lemma_put_at(front, pairs.last().0, pairs.last().1, front.len() as int);
        assert(front.insert(front.len() as int, pairs.last()) =~= pairs);
    } else {
        assert(gather(pairs) =~= pairs);
    }
}

/// A map from text to `V`. Its entries stand in the order of their keys, each key once.
#[derive(Debug)]
pub struct StrMap<V> {
    pub(crate) entries: Vec<(String, V)>,
}

/// The invariant of the type, said of its entries.
pub(crate) proof fn lemma_ordered<V>(m: StrMap<V>)
    requires
        m.ordered(),
    ensures
        ascending(m.pairs()),
{
}

/// A map is larger than each value in it, so what recurs into the values ends.
pub proof fn lemma_values_smaller<V>(m: StrMap<V>)
    ensures
        forall|i: int|
            0 <= i < m.pairs().len() ==> decreases_to!(m => (#[trigger] m.pairs()[i]).1),
{
    assert forall|i: int| 0 <= i < m.pairs().len() implies decreases_to!(
        m => (#[trigger] m.pairs()[i]).1
    ) by {
        assert(decreases_to!(m => m.entries));
        assert(decreases_to!(m.entries => m.entries@));
        assert(decreases_to!(m.entries@ => m.entries@[i]));
        assert(decreases_to!(m.entries@[i] => m.entries@[i].1));
    }
}

impl<V> StrMap<V> {
    /// The entries, in the order of their keys.
    pub closed spec fn pairs(self) -> Seq<(Seq<char>, V)> {
        Seq::new(self.entries@.len(), |i: int| (self.entries@[i].0@, self.entries@[i].1))
    }

    #[verifier::type_invariant]
    pub(crate) closed spec fn ordered(self) -> bool {
        ascending(self.pairs())
    }

    /// A map with nothing in it.
    pub fn new() -> (r: Self)
        ensures
            r.pairs() == Seq::<(Seq<char>, V)>::empty(),
    {
        let r = StrMap { entries: Vec::new() };
        assert(r.pairs() =~= Seq::<(Seq<char>, V)>::empty());
        r
    }

    /// How many entries there are.
    pub fn len(&self) -> (r: usize)
        ensures
            r == self.pairs().len(),
    {
        self.entries.len()
    }

    /// The key of the `i`-th entry.
    pub fn key(&self, i: usize) -> (r: &str)
        requires
            i < self.pairs().len(),
        ensures
            r@ == self.pairs()[i as int].0,
    {
        self.entries[i].0.as_str()
    }

    /// The value of the `i`-th entry.
    pub fn value(&self, i: usize) -> (r: &V)
        requires
            i < self.pairs().len(),
        ensures
            *r == self.pairs()[i as int].1,
    {
        &self.entries[i].1
    }

    /// What stands under `key`.
    pub fn get(&self, key: &str) -> (r: Option<&V>)
        ensures
            match r {
                Some(v) => lookup(self.pairs(), key@) == Some(*v),
                None => lookup(self.pairs(), key@) is None,
            },
    {
        let mut i: usize = 0;
        let ghost all = self.pairs();
        assert(all.skip(0) =~= all);
        while i < self.entries.len()
            invariant
                all == self.pairs(),
                all.len() == self.entries@.len(),
                i <= all.len(),
                lookup(all, key@) == lookup(all.skip(i as int), key@),
            decreases all.len() - i,
        {
            if text::same(self.entries[i].0.as_str(), key) {
                return Some(&self.entries[i].1);
            }
            assert(all.skip(i as int).skip(1) =~= all.skip(i + 1));
            i += 1;
        }
        None
    }

    /// Put an entry at the end, where its key comes after all the others.
    pub(crate) fn push_last(&mut self, key: String, value: V)
        requires
            forall|j: int|
                0 <= j < old(self).pairs().len() ==> text::before(
                    (#[trigger] old(self).pairs()[j]).0,
                    key@,
                ),
        ensures
            final(self).pairs() == old(self).pairs().push((key@, value)),
    {
        proof {
            use_type_invariant(&*self);
        }
        let ghost all = self.pairs();
        let ghost k = key@;
        let mut entries: Vec<(String, V)> = Vec::new();
        std::mem::swap(&mut entries, &mut self.entries);
        let ghost whole = StrMap { entries };
        assert(whole.pairs() =~= all);
        entries.push((key, value));
        let ghost whole = StrMap { entries };
        assert(whole.pairs() =~= all.push((k, value)));
        assert(ascending(whole.pairs())) by {
            let w = whole.pairs();
            assert forall|i: int, j: int| 0 <= i < j < w.len() implies text::before(
                #[trigger] w[i].0,
                #[trigger] w[j].0,
            ) by {
                assert(w[i] == all[i]);
                if j < all.len() {
                    assert(w[j] == all[j]);
                }
            }
        }
        self.entries = entries;
    }

    /// Put `value` under `key`, over whatever stood there.
    pub fn insert(&mut self, key: String, value: V)
        ensures
            final(self).pairs() == put(old(self).pairs(), key@, value),
    {
        proof {
            use_type_invariant(&*self);
        }
        let ghost all = self.pairs();
        let mut entries: Vec<(String, V)> = Vec::new();
        std::mem::swap(&mut entries, &mut self.entries);
        let ghost whole = StrMap { entries };
        assert(whole.pairs() =~= all);
        let mut i: usize = 0;
        while i < entries.len() && text::less(entries[i].0.as_str(), key.as_str())
            invariant
                all.len() == entries@.len(),
                forall|j: int| 0 <= j < all.len() ==> #[trigger] all[j] == (
                    entries@[j].0@,
                    entries@[j].1,
                ),
                i <= all.len(),
                forall|j: int| 0 <= j < i ==> text::before(#[trigger] all[j].0, key@),
            decreases all.len() - i,
        {
            i += 1;
        }
        proof {
            lemma_put_at(all, key@, value, i as int);
            law_put_keeps_order(all, key@, value);
        }
        let ghost k = key@;
        if i < entries.len() && text::same(entries[i].0.as_str(), key.as_str()) {
            entries[i] = (key, value);
            let ghost whole = StrMap { entries };
            assert(whole.pairs() =~= all.update(i as int, (k, value)));
        } else {
            entries.insert(i, (key, value));
            let ghost whole = StrMap { entries };
            assert(whole.pairs() =~= all.insert(i as int, (k, value)));
        }
        self.entries = entries;
    }
}

} // verus!
