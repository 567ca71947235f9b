use vstd::prelude::*;
use crate::error::DrawError;
use crate::weighted_char::WeightedChar;

verus! {

/// Sum of the weights of a sequence of weighted characters.
pub open spec fn sum_weights(s: Seq<WeightedChar>) -> int
    decreases s.len(),
{
    if s.len() == 0 {
        0
    } else {
        s[0].spec_weight() + sum_weights(s.drop_first())
    }
}

/// Whether some entry of the sequence carries the character `c`.
pub open spec fn seq_has_char(s: Seq<WeightedChar>, c: char) -> bool
    decreases s.len(),
{
    if s.len() == 0 {
        false
    } else if s[0].spec_char() == c {
        true
    } else {
        seq_has_char(s.drop_first(), c)
    }
}

/// Weight of the first entry carrying `c`, or zero when no entry does.
pub open spec fn seq_weight_of(s: Seq<WeightedChar>, c: char) -> u32
    decreases s.len(),
{
    if s.len() == 0 {
        0
    } else if s[0].spec_char() == c {
        s[0].spec_weight()
    } else {
        seq_weight_of(s.drop_first(), c)
    }
}

/// No two entries of the sequence carry the same character.
pub open spec fn distinct_chars(s: Seq<WeightedChar>) -> bool {
    forall|i: int, j: int|
        0 <= i < j < s.len() ==> s[i].spec_char() != s[j].spec_char()
}

/// The entry selected by a draw of `r` from `[1, sum_weights(s)]`: walk the
/// entries in order, letting each claim a band of `r` values as wide as its
/// weight, and take the entry whose band `r` falls into.
pub open spec fn spec_pick(s: Seq<WeightedChar>, r: int) -> WeightedChar
    decreases s.len(),
{
    if s.len() == 0 {
        vstd::pervasive::arbitrary()
    } else if r <= s[0].spec_weight() {
        s[0]
    } else {
        spec_pick(s.drop_first(), r - s[0].spec_weight())
    }
}

proof fn lemma_sum_nonneg(s: Seq<WeightedChar>)
    ensures
        sum_weights(s) >= 0,
    decreases s.len(),
{
    if s.len() > 0 {
        lemma_sum_nonneg(s.drop_first());
    }
}

proof fn lemma_index_le_sum(s: Seq<WeightedChar>, i: int)
    requires
        0 <= i < s.len(),
    ensures
        s[i].spec_weight() <= sum_weights(s),
    decreases i,
{
    lemma_sum_nonneg(s.drop_first());
    if i > 0 {
        lemma_index_le_sum(s.drop_first(), i - 1);
    }
}

proof fn lemma_index_has(s: Seq<WeightedChar>, i: int)
    requires
        0 <= i < s.len(),
    ensures
        seq_has_char(s, s[i].spec_char()),
    decreases i,
{
    if i > 0 && s[0].spec_char() != s[i].spec_char() {
        lemma_index_has(s.drop_first(), i - 1);
    }
}

proof fn lemma_seq_found(s: Seq<WeightedChar>, c: char, i: int)
    requires
        0 <= i < s.len(),
        s[i].spec_char() == c,
        forall|j: int| 0 <= j < i ==> s[j].spec_char() != c,
    ensures
        seq_has_char(s, c),
        seq_weight_of(s, c) == s[i].spec_weight(),
    decreases i,
{
    if i > 0 {
        lemma_seq_found(s.drop_first(), c, i - 1);
    }
}

proof fn lemma_seq_absent(s: Seq<WeightedChar>, c: char)
    requires
        forall|j: int| 0 <= j < s.len() ==> s[j].spec_char() != c,
    ensures
        !seq_has_char(s, c),
        seq_weight_of(s, c) == 0,
    decreases s.len(),
{
    if s.len() > 0 {
        lemma_seq_absent(s.drop_first(), c);
    }
}

proof fn lemma_seq_has_index(s: Seq<WeightedChar>, c: char)
    requires
        seq_has_char(s, c),
    ensures
        exists|i: int| 0 <= i < s.len() && s[i].spec_char() == c,
    decreases s.len(),
{
    if s[0].spec_char() == c {
        assert(0 <= 0 < s.len() && s[0].spec_char() == c);
    } else {
        lemma_seq_has_index(s.drop_first(), c);
        let i = choose|i: int| 0 <= i < s.drop_first().len() && s.drop_first()[i].spec_char() == c;
        assert(s[i + 1].spec_char() == c);
    }
}

proof fn lemma_not_has_weight_zero(s: Seq<WeightedChar>, c: char)
    requires
        !seq_has_char(s, c),
    ensures
        seq_weight_of(s, c) == 0,
    decreases s.len(),
{
    if s.len() > 0 {
        lemma_not_has_weight_zero(s.drop_first(), c);
    }
}

proof fn lemma_seq_weight_le_sum(s: Seq<WeightedChar>, c: char)
    ensures
        seq_weight_of(s, c) <= sum_weights(s),
    decreases s.len(),
{
    if s.len() > 0 {
        lemma_sum_nonneg(s.drop_first());
        lemma_seq_weight_le_sum(s.drop_first(), c);
    }
}

proof fn lemma_sum_push(s: Seq<WeightedChar>, x: WeightedChar)
    ensures
        sum_weights(s.push(x)) == sum_weights(s) + x.spec_weight(),
    decreases s.len(),
{
    if s.len() == 0 {
        assert(s.push(x).drop_first() =~= Seq::<WeightedChar>::empty());
        assert(s.push(x).len() == 1);
        assert(s.push(x)[0] == x);
        assert(sum_weights(s.push(x).drop_first()) == 0);
        assert(sum_weights(s.push(x)) == x.spec_weight());
        assert(sum_weights(s) == 0);
    } else {
        assert(s.push(x).drop_first() =~= s.drop_first().push(x));
        assert(s.push(x)[0] == s[0]);
        lemma_sum_push(s.drop_first(), x);
    }
}

proof fn lemma_has_push(s: Seq<WeightedChar>, x: WeightedChar, c: char)
    ensures
        seq_has_char(s.push(x), c) <==> (seq_has_char(s, c) || x.spec_char() == c),
    decreases s.len(),
{
    if s.len() == 0 {
        assert(s.push(x).drop_first() =~= Seq::<WeightedChar>::empty());
        assert(s.push(x)[0] == x);
        assert(!seq_has_char(s.push(x).drop_first(), c));
        assert(seq_has_char(s.push(x), c) <==> x.spec_char() == c);
        assert(!seq_has_char(s, c));
    } else {
        assert(s.push(x).drop_first() =~= s.drop_first().push(x));
        assert(s.push(x)[0] == s[0]);
        lemma_has_push(s.drop_first(), x, c);
        assert(seq_has_char(s.push(x).drop_first(), c) <==> (seq_has_char(s.drop_first(), c)
            || x.spec_char() == c));
        if s[0].spec_char() == c {
            assert(seq_has_char(s.push(x), c));
            assert(seq_has_char(s, c));
        } else {
            assert(seq_has_char(s.push(x), c) <==> seq_has_char(s.push(x).drop_first(), c));
            assert(seq_has_char(s, c) <==> seq_has_char(s.drop_first(), c));
        }
    }
}

proof fn lemma_weight_push(s: Seq<WeightedChar>, x: WeightedChar, c: char)
    ensures
        seq_weight_of(s.push(x), c) == if seq_has_char(s, c) {
            seq_weight_of(s, c)
        } else if x.spec_char() == c {
            x.spec_weight()
        } else {
            0u32
        },
    decreases s.len(),
{
    if s.len() == 0 {
        assert(s.push(x).drop_first() =~= Seq::<WeightedChar>::empty());
        assert(s.push(x)[0] == x);
        assert(seq_weight_of(s.push(x).drop_first(), c) == 0);
        assert(!seq_has_char(s, c));
        assert(seq_weight_of(s.push(x), c) == if x.spec_char() == c {
            x.spec_weight()
        } else {
            0u32
        });
    } else {
        assert(s.push(x).drop_first() =~= s.drop_first().push(x));
        assert(s.push(x)[0] == s[0]);
        lemma_weight_push(s.drop_first(), x, c);
        if s[0].spec_char() == c {
            assert(seq_weight_of(s.push(x), c) == s[0].spec_weight());
            assert(seq_has_char(s, c));
            assert(seq_weight_of(s, c) == s[0].spec_weight());
        } else {
            assert(seq_weight_of(s.push(x), c) == seq_weight_of(s.push(x).drop_first(), c));
            assert(seq_weight_of(s, c) == seq_weight_of(s.drop_first(), c));
            assert(seq_has_char(s, c) <==> seq_has_char(s.drop_first(), c));
        }
    }
}

proof fn lemma_sum_update(s: Seq<WeightedChar>, i: int, x: WeightedChar)
    requires
        0 <= i < s.len(),
    ensures
        sum_weights(s.update(i, x)) == sum_weights(s) - s[i].spec_weight() + x.spec_weight(),
    decreases i,
{
    if i == 0 {
        assert(s.update(0, x).drop_first() =~= s.drop_first());
    } else {
        assert(s.update(i, x).drop_first() =~= s.drop_first().update(i - 1, x));
        lemma_sum_update(s.drop_first(), i - 1, x);
    }
}

proof fn lemma_has_update(s: Seq<WeightedChar>, i: int, x: WeightedChar, c: char)
    requires
        0 <= i < s.len(),
        s[i].spec_char() == x.spec_char(),
    ensures
        seq_has_char(s.update(i, x), c) <==> seq_has_char(s, c),
    decreases i,
{
    if i == 0 {
        assert(s.update(0, x).drop_first() =~= s.drop_first());
    } else {
        assert(s.update(i, x).drop_first() =~= s.drop_first().update(i - 1, x));
        lemma_has_update(s.drop_first(), i - 1, x, c);
    }
}

proof fn lemma_weight_update(s: Seq<WeightedChar>, i: int, x: WeightedChar, c: char)
    requires
        0 <= i < s.len(),
        s[i].spec_char() == x.spec_char(),
        forall|j: int| 0 <= j < s.len() && j != i ==> s[j].spec_char() != s[i].spec_char(),
    ensures
        seq_weight_of(s.update(i, x), c) == if c == x.spec_char() {
            x.spec_weight()
        } else {
            seq_weight_of(s, c)
        },
    decreases i,
{
    if i == 0 {
        assert(s.update(0, x).drop_first() =~= s.drop_first());
    } else {
        assert(s.update(i, x).drop_first() =~= s.drop_first().update(i - 1, x));
        assert forall|j: int|
            0 <= j < s.drop_first().len() && j != i - 1 implies (#[trigger] s.drop_first()[
            j
        ]).spec_char() != s.drop_first()[i - 1].spec_char() by {
            assert(s.drop_first()[j] == s[j + 1]);
        }
        lemma_weight_update(s.drop_first(), i - 1, x, c);
    }
}

proof fn lemma_remove_effect(s: Seq<WeightedChar>, i: int, c: char)
    requires
        0 <= i < s.len(),
        distinct_chars(s),
    ensures
        sum_weights(s.remove(i)) == sum_weights(s) - s[i].spec_weight(),
        seq_has_char(s.remove(i), c) <==> (seq_has_char(s, c) && c != s[i].spec_char()),
        seq_weight_of(s.remove(i), c) == if c == s[i].spec_char() {
            0u32
        } else {
            seq_weight_of(s, c)
        },
    decreases i,
{
    s.remove_ensures(i);
    if i == 0 {
        assert(s.remove(0) =~= s.drop_first());
        if c == s[0].spec_char() {
            assert forall|j: int| 0 <= j < s.drop_first().len() implies s.drop_first()[
                j
            ].spec_char() != c by {
                assert(s.drop_first()[j] == s[j + 1]);
            }
            lemma_seq_absent(s.drop_first(), c);
        }
    } else {
        assert(s.remove(i)[0] == s[0]);
        assert(s.remove(i).drop_first() =~= s.drop_first().remove(i - 1));
        assert forall|p: int, q: int|
            0 <= p < q < s.drop_first().len() implies s.drop_first()[p].spec_char()
            != s.drop_first()[q].spec_char() by {
            assert(s.drop_first()[p] == s[p + 1]);
            assert(s.drop_first()[q] == s[q + 1]);
        }
        lemma_remove_effect(s.drop_first(), i - 1, c);
    }
}

proof fn lemma_pick(s: Seq<WeightedChar>, r: int)
    requires
        distinct_chars(s),
        1 <= r <= sum_weights(s),
    ensures
        seq_has_char(s, spec_pick(s, r).spec_char()),
        spec_pick(s, r).spec_weight() == seq_weight_of(s, spec_pick(s, r).spec_char()),
        spec_pick(s, r).spec_weight() >= 1,
    decreases s.len(),
{
    assert(s.len() > 0);
    if r <= s[0].spec_weight() {
    } else {
        assert forall|p: int, q: int|
            0 <= p < q < s.drop_first().len() implies s.drop_first()[p].spec_char()
            != s.drop_first()[q].spec_char() by {
            assert(s.drop_first()[p] == s[p + 1]);
            assert(s.drop_first()[q] == s[q + 1]);
        }
        lemma_pick(s.drop_first(), r - s[0].spec_weight());
        let p = spec_pick(s.drop_first(), r - s[0].spec_weight());
        lemma_seq_has_index(s.drop_first(), p.spec_char());
        let k = choose|k: int|
            0 <= k < s.drop_first().len() && s.drop_first()[k].spec_char() == p.spec_char();
        assert(s[k + 1].spec_char() == p.spec_char());
        assert(s[0].spec_char() != p.spec_char());
    }
}

/// A set of weighted characters with unique characters, together with a
/// cached total of all contained weights.
pub struct WeightedCharSet {
    values: Vec<WeightedChar>,
    total_weight: u32,
}

impl WeightedCharSet {
    /// The contained entries, in their stable iteration order.
    pub closed spec fn entries(self) -> Seq<WeightedChar> {
        self.values@
    }

    /// The cached total weight.
    pub closed spec fn spec_total(self) -> u32 {
        self.total_weight
    }

    /// Number of distinct characters held.
    pub open spec fn spec_len(self) -> nat {
        self.entries().len()
    }

    /// Whether the set holds an entry for `c`.
    pub open spec fn spec_contains(self, c: char) -> bool {
        seq_has_char(self.entries(), c)
    }

    /// The weight recorded for `c`, or zero when `c` is absent.
    pub open spec fn spec_weight(self, c: char) -> u32 {
        seq_weight_of(self.entries(), c)
    }

    /// Well-formedness: characters are unique and the cached total equals the
    /// sum of the contained weights.
    pub open spec fn wf(self) -> bool {
        &&& distinct_chars(self.entries())
        &&& self.spec_total() == sum_weights(self.entries())
    }

    /// Every contained character carries a strictly positive weight.
    pub open spec fn all_positive(self) -> bool {
        forall|c: char| self.spec_contains(c) ==> self.spec_weight(c) >= 1
    }

    /// An empty set.
    pub fn new() -> (r: Self)
        ensures
            r.wf(),
            r.all_positive(),
            r.spec_total() == 0,
            r.spec_len() == 0,
            forall|c: char| !r.spec_contains(c),
            forall|c: char| r.spec_weight(c) == 0,
    {
        let r = WeightedCharSet { values: Vec::new(), total_weight: 0 };
        proof {
            assert forall|c: char| !r.spec_contains(c) && r.spec_weight(c) == 0 by {
                lemma_seq_absent(r.entries(), c);
            }
        }
        r
    }

    fn index_of(&self, c: char) -> (r: Option<usize>)
        ensures
            match r {
                Some(i) => {
                    &&& i < self.entries().len()
                    &&& self.entries()[i as int].spec_char() == c
                    &&& forall|j: int| 0 <= j < i ==> self.entries()[j].spec_char() != c
                    &&& self.spec_contains(c)
                    &&& self.spec_weight(c) == self.entries()[i as int].spec_weight()
                },
                None => !self.spec_contains(c) && self.spec_weight(c) == 0,
            },
    {
        let n = self.values.len();
        let mut i: usize = 0;
        while i < n
            invariant
                n == self.entries().len(),
                i <= n,
                forall|j: int| 0 <= j < i ==> self.entries()[j].spec_char() != c,
            decreases n - i,
        {
            if self.values[i].get_char() == c {
                proof {
                    lemma_seq_found(self.entries(), c, i as int);
                }
                return Some(i);
            }
            i = i + 1;
        }
        proof {
            lemma_seq_absent(self.entries(), c);
        }
        None
    }

    /// The entry whose character equals that of `value`, if one is held.
    pub fn get(&self, value: &WeightedChar) -> (r: Option<WeightedChar>)
        ensures
            (r is Some) <==> self.spec_contains(value.spec_char()),
            (r matches Some(wc) ==> wc.spec_char() == value.spec_char() && wc.spec_weight()
                == self.spec_weight(value.spec_char())),
    {
        match self.index_of(value.get_char()) {
            Some(i) => Some(self.values[i]),
            None => None,
        }
    }

    /// Whether an entry with the character of `value` is held.
    pub fn contains(&self, value: &WeightedChar) -> (r: bool)
        ensures
            r == self.spec_contains(value.spec_char()),
    {
        self.index_of(value.get_char()).is_some()
    }

    /// Add `value` when its character is new, counting its weight into the
    /// total; when the character is already held, change nothing.
    pub fn insert(&mut self, value: WeightedChar) -> (r: bool)
        requires
            old(self).wf(),
            old(self).spec_total() + value.spec_weight() <= u32::MAX,
        ensures
            final(self).wf(),
            r == !old(self).spec_contains(value.spec_char()),
            !r ==> *final(self) == *old(self),
            r ==> final(self).spec_total() == old(self).spec_total() + value.spec_weight(),
            r ==> final(self).spec_len() == old(self).spec_len() + 1,
            r ==> (forall|c: char|
                final(self).spec_contains(c) <==> (old(self).spec_contains(c) || c
                    == value.spec_char())),
            r ==> final(self).spec_weight(value.spec_char()) == value.spec_weight(),
            r ==> (forall|c: char|
                c != value.spec_char() ==> final(self).spec_weight(c) == old(self).spec_weight(
                    c,
                )),
    {
        match self.index_of(value.get_char()) {
            Some(_) => false,
            None => {
                let w = value.get_weight();
                let ghost s = self.entries();
                self.values.push(value);
                self.total_weight = self.total_weight + w;
                proof {
                    lemma_sum_push(s, value);
                    assert forall|c: char|
                        self.spec_contains(c) <==> (seq_has_char(s, c) || c
                            == value.spec_char()) by {
                        lemma_has_push(s, value, c);
                    }
                    assert forall|c: char|
                        c != value.spec_char() implies self.spec_weight(c) == seq_weight_of(
                        s,
                        c,
                    ) by {
                        lemma_weight_push(s, value, c);
                        if !seq_has_char(s, c) {
                            lemma_not_has_weight_zero(s, c);
                        }
                    }
                    lemma_weight_push(s, value, value.spec_char());
                    assert forall|p: int, q: int|
                        0 <= p < q < self.entries().len() implies self.entries()[p].spec_char()
                        != self.entries()[q].spec_char() by {
                        if q == s.len() {
                            lemma_index_has(s, p);
                        }
                    }
                }
                true
            },
        }
    }

    /// Raise the weight of `c` by `delta`, creating the entry with weight
    /// `delta` when `c` is new; the total grows by `delta` either way.
    pub fn increment(&mut self, c: char, delta: u32)
        requires
            old(self).wf(),
            old(self).spec_total() + delta <= u32::MAX,
        ensures
            final(self).wf(),
            final(self).spec_total() == old(self).spec_total() + delta,
            final(self).spec_weight(c) == old(self).spec_weight(c) + delta,
            forall|x: char| x != c ==> final(self).spec_weight(x) == old(self).spec_weight(x),
            forall|x: char|
                final(self).spec_contains(x) <==> (old(self).spec_contains(x) || x == c),
            final(self).spec_len() == old(self).spec_len() + (if old(self).spec_contains(c) {
                0int
            } else {
                1int
            }),
            old(self).all_positive() && delta >= 1 ==> final(self).all_positive(),
    {
        match self.index_of(c) {
            Some(i) => {
                let old_w = self.values[i].get_weight();
                proof {
                    lemma_index_le_sum(self.entries(), i as int);
                }
                let ghost s = self.entries();
                let replacement = WeightedChar::new_with_weight(c, old_w + delta);
                let slot = &mut self.values[i];
                *slot = replacement;
                self.total_weight = self.total_weight + delta;
                proof {
                    assert(self.entries() =~= s.update(i as int, replacement));
                    assert forall|j: int|
                        0 <= j < s.len() && j != i implies s[j].spec_char() != s[
                        i as int
                    ].spec_char() by {}
                    lemma_sum_update(s, i as int, replacement);
                    assert forall|x: char|
                        self.spec_contains(x) <==> (seq_has_char(s, x) || x == c) by {
                        lemma_has_update(s, i as int, replacement, x);
                        if x == c {
                            lemma_index_has(s, i as int);
                        }
                    }
                    assert forall|x: char|
                        self.spec_weight(x) == if x == c {
                            replacement.spec_weight()
                        } else {
                            seq_weight_of(s, x)
                        } by {
                        lemma_weight_update(s, i as int, replacement, x);
                    }
                    assert forall|p: int, q: int|
                        0 <= p < q < self.entries().len() implies self.entries()[p].spec_char()
                        != self.entries()[q].spec_char() by {}
                    if old(self).all_positive() && delta >= 1 {
                        assert forall|x: char| self.spec_contains(x) implies self.spec_weight(x)
                            >= 1 by {
                            if x != c {
                                assert(old(self).spec_contains(x));
                                assert(self.spec_weight(x) == old(self).spec_weight(x));
                            }
                        }
                    }
                }
            },
            None => {
                let ghost s = self.entries();
                let fresh = WeightedChar::new_with_weight(c, delta);
                self.values.push(fresh);
                self.total_weight = self.total_weight + delta;
                proof {
                    lemma_sum_push(s, fresh);
                    assert forall|x: char|
                        self.spec_contains(x) <==> (seq_has_char(s, x) || x == c) by {
                        lemma_has_push(s, fresh, x);
                    }
                    assert forall|x: char|
                        self.spec_weight(x) == if x == c {
                            delta
                        } else {
                            seq_weight_of(s, x)
                        } by {
                        lemma_weight_push(s, fresh, x);
                        if x == c {
                            lemma_not_has_weight_zero(s, c);
                        } else if !seq_has_char(s, x) {
                            lemma_not_has_weight_zero(s, x);
                        }
                    }
                    assert forall|p: int, q: int|
                        0 <= p < q < self.entries().len() implies self.entries()[p].spec_char()
                        != self.entries()[q].spec_char() by {
                        if q == s.len() {
                            lemma_index_has(s, p);
                        }
                    }
                    if old(self).all_positive() && delta >= 1 {
                        assert forall|x: char| self.spec_contains(x) implies self.spec_weight(x)
                            >= 1 by {
                            if x != c {
                                assert(old(self).spec_contains(x));
                                assert(self.spec_weight(x) == old(self).spec_weight(x));
                            }
                        }
                    }
                }
            },
        }
    }

    /// Drop the entry whose character equals that of `value`, subtracting its
    /// weight from the total; report whether a removal happened.
    pub fn remove(&mut self, value: &WeightedChar) -> (r: bool)
        requires
            old(self).wf(),
        ensures
            final(self).wf(),
            r == old(self).spec_contains(value.spec_char()),
            !r ==> *final(self) == *old(self),
            r ==> final(self).spec_total() == old(self).spec_total() - old(self).spec_weight(
                value.spec_char(),
            ),
            r ==> final(self).spec_len() == old(self).spec_len() - 1,
            forall|c: char|
                final(self).spec_contains(c) <==> (old(self).spec_contains(c) && c
                    != value.spec_char()),
            final(self).spec_weight(value.spec_char()) == 0,
            forall|c: char|
                c != value.spec_char() ==> final(self).spec_weight(c) == old(self).spec_weight(c),
            old(self).all_positive() ==> final(self).all_positive(),
    {
        match self.index_of(value.get_char()) {
            None => {
                proof {
                    lemma_not_has_weight_zero(self.entries(), value.spec_char());
                }
                false
            },
            Some(i) => {
                let ghost s = self.entries();
                let removed = self.values.remove(i);
                proof {
                    lemma_index_le_sum(s, i as int);
                }
                self.total_weight = self.total_weight - removed.get_weight();
                proof {
                    assert forall|c: char|
                        (self.spec_contains(c) <==> (seq_has_char(s, c) && c
                            != value.spec_char())) && (self.spec_weight(c) == if c
                            == value.spec_char() {
                            0u32
                        } else {
                            seq_weight_of(s, c)
                        }) by {
                        lemma_remove_effect(s, i as int, c);
                    }
                    lemma_remove_effect(s, i as int, value.spec_char());
                    assert forall|c2: char|
                        c2 != value.spec_char() implies self.spec_weight(c2) == old(
                        self,
                    ).spec_weight(c2) by {
                        lemma_remove_effect(s, i as int, c2);
                    }
                    if old(self).all_positive() {
                        assert forall|x: char| self.spec_contains(x) implies self.spec_weight(x)
                            >= 1 by {
                            assert(old(self).spec_contains(x));
                            assert(x != value.spec_char());
                            assert(self.spec_weight(x) == old(self).spec_weight(x));
                        }
                    }
                    s.remove_ensures(i as int);
                    assert forall|p: int, q: int|
                        0 <= p < q < self.entries().len() implies self.entries()[p].spec_char()
                        != self.entries()[q].spec_char() by {
                        if q < i {
                            assert(self.entries()[p] == s[p] && self.entries()[q] == s[q]);
                        } else if p < i {
                            assert(self.entries()[p] == s[p] && self.entries()[q] == s[q + 1]);
                        } else {
                            assert(self.entries()[p] == s[p + 1] && self.entries()[q] == s[q + 1]);
                        }
                    }
                }
                true
            },
        }
    }

    /// The cached total weight.
    pub fn get_total_weight(&self) -> (w: u32)
        ensures
            w == self.spec_total(),
    {
        self.total_weight
    }

    /// Number of distinct characters held.
    pub fn len(&self) -> (n: usize)
        ensures
            n == self.spec_len(),
    {
        self.values.len()
    }

    /// The deterministic part of a weighted draw: the entry selected when the
    /// random integer came out as `r`. Two calls on equal sets with equal `r`
    /// return the same entry.
    pub fn pick(&self, r: u32) -> (res: WeightedChar)
        requires
            self.wf(),
            1 <= r <= self.spec_total(),
        ensures
            res == spec_pick(self.entries(), r as int),
            self.spec_contains(res.spec_char()),
            res.spec_weight() == self.spec_weight(res.spec_char()),
            res.spec_weight() >= 1,
    {
        proof {
            lemma_pick(self.entries(), r as int);
        }
        let ghost s = self.entries();
        let n = self.values.len();
        let mut rem: u32 = r;
        let mut i: usize = 0;
        proof {
            assert(s.skip(0) =~= s);
            assert(s.len() > 0) by {
                if s.len() == 0 {
                    assert(sum_weights(s) == 0);
                }
            }
        }
        while self.values[i].get_weight() < rem
            invariant
                self.wf(),
                s == self.entries(),
                n == s.len(),
                i < s.len(),
                1 <= rem,
                rem <= sum_weights(s.skip(i as int)),
                spec_pick(s, r as int) == spec_pick(s.skip(i as int), rem as int),
            decreases s.len() - i,
        {
            let w = self.values[i].get_weight();
            rem = rem - w;
            proof {
                let t = s.skip(i as int);
                assert(t[0] == s[i as int]);
                assert(t.drop_first() =~= s.skip(i as int + 1));
                assert(rem <= sum_weights(s.skip(i as int + 1)));
                assert(s.skip(i as int + 1).len() > 0) by {
                    if s.skip(i as int + 1).len() == 0 {
                        assert(sum_weights(s.skip(i as int + 1)) == 0);
                    }
                }
            }
            i = i + 1;
        }
        proof {
            let t = s.skip(i as int);
            assert(t[0] == s[i as int]);
            assert(spec_pick(t, rem as int) == s[i as int]);
        }
        self.values[i]
    }

    /// Draw a character with probability proportional to its weight, using
    /// the given seedable generator; fails exactly when the total weight is
    /// zero.
    pub fn draw(&self, rng: &mut rand::rngs::StdRng) -> (res: Result<char, DrawError>)
        requires
            self.wf(),
        ensures
            (res is Err) <==> self.spec_total() == 0,
            res is Err ==> res == Err::<char, DrawError>(DrawError::EmptySet),
            (res matches Ok(c) ==> self.spec_contains(c) && self.spec_weight(c) >= 1),
            (res matches Ok(c) ==> exists|r: int|
                1 <= r <= self.spec_total() && c == spec_pick(self.entries(), r).spec_char()),
    {
        if self.total_weight == 0 {
            return Err(DrawError::EmptySet);
        }
        let r = crate::rng::gen_in_range(rng, 1, self.total_weight);
        let wc = self.pick(r);
        proof {
            assert(wc == spec_pick(self.entries(), r as int));
        }
        Ok(wc.get_char())
    }

    /// Draw an entry with probability proportional to its weight, using a
    /// generator freshly seeded from the system; yields nothing exactly when
    /// the total weight is zero.
    pub fn get_random(&self) -> (res: Option<WeightedChar>)
        requires
            self.wf(),
        ensures
            (res is Some) <==> self.spec_total() != 0,
            (res matches Some(wc) ==> self.spec_contains(wc.spec_char()) && wc.spec_weight()
                == self.spec_weight(wc.spec_char()) && wc.spec_weight() >= 1),
            (res matches Some(wc) ==> exists|r: int|
                1 <= r <= self.spec_total() && wc == spec_pick(self.entries(), r)),
    {
        if self.total_weight == 0 {
            return None;
        }
        let mut rng = crate::rng::entropy_rng();
        let r = crate::rng::gen_in_range(&mut rng, 1, self.total_weight);
        let wc = self.pick(r);
        proof {
            assert(wc == spec_pick(self.entries(), r as int));
        }
        Some(wc)
    }

    /// No recorded weight exceeds the cached total.
    pub proof fn lemma_weight_le_total(self, c: char)
        requires
            self.wf(),
        ensures
            self.spec_weight(c) <= self.spec_total(),
    {
        lemma_seq_weight_le_sum(self.entries(), c);
    }

    /// A character with positive weight is a member.
    pub proof fn lemma_weight_pos_contains(self, c: char)
        requires
            self.spec_weight(c) >= 1,
        ensures
            self.spec_contains(c),
    {
        if !self.spec_contains(c) {
            lemma_not_has_weight_zero(self.entries(), c);
        }
    }

    /// When every member's weight is positive, the cached total is zero
    /// exactly when the set is empty.
    pub proof fn lemma_total_zero_iff_empty(self)
        requires
            self.wf(),
            self.all_positive(),
        ensures
            self.spec_total() == 0 <==> self.spec_len() == 0,
    {
        let s = self.entries();
        if s.len() > 0 {
            lemma_index_has(s, 0);
            assert(self.spec_contains(s[0].spec_char()));
            assert(self.spec_weight(s[0].spec_char()) >= 1);
            assert(seq_weight_of(s, s[0].spec_char()) == s[0].spec_weight());
            lemma_index_le_sum(s, 0);
        }
    }
}

} // verus!
