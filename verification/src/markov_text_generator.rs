use vstd::prelude::*;
use vstd::string::StrSliceExecFns;
use crate::error::DrawError;
use crate::weighted_char_set::WeightedCharSet;

verus! {

/// Number of adjacent ordered pairs `(a, b)` within the character sequence.
pub open spec fn pair_count(t: Seq<char>, a: char, b: char) -> int
    decreases t.len(),
{
    if t.len() < 2 {
        0
    } else {
        (if t[0] == a && t[1] == b {
            1int
        } else {
            0int
        }) + pair_count(t.drop_first(), a, b)
    }
}

/// Number of positions where `a` occurs followed by at least one more
/// character, i.e. the number of pairs `(a, *)` within the sequence.
pub open spec fn lead_count(t: Seq<char>, a: char) -> int
    decreases t.len(),
{
    if t.len() < 2 {
        0
    } else {
        (if t[0] == a {
            1int
        } else {
            0int
        }) + lead_count(t.drop_first(), a)
    }
}

/// Whether some entry of the chain is keyed by `a`.
pub open spec fn chain_has(s: Seq<(char, WeightedCharSet)>, a: char) -> bool
    decreases s.len(),
{
    if s.len() == 0 {
        false
    } else if s[0].0 == a {
        true
    } else {
        chain_has(s.drop_first(), a)
    }
}

/// Weight of successor `b` under the first entry keyed by `a`, or zero.
pub open spec fn chain_weight(s: Seq<(char, WeightedCharSet)>, a: char, b: char) -> u32
    decreases s.len(),
{
    if s.len() == 0 {
        0
    } else if s[0].0 == a {
        s[0].1.spec_weight(b)
    } else {
        chain_weight(s.drop_first(), a, b)
    }
}

/// Total weight of the first entry keyed by `a`, or zero.
pub open spec fn chain_total(s: Seq<(char, WeightedCharSet)>, a: char) -> u32
    decreases s.len(),
{
    if s.len() == 0 {
        0
    } else if s[0].0 == a {
        s[0].1.spec_total()
    } else {
        chain_total(s.drop_first(), a)
    }
}

/// Sum of the total weights of all entries of the chain.
pub open spec fn chain_grand(s: Seq<(char, WeightedCharSet)>) -> int
    decreases s.len(),
{
    if s.len() == 0 {
        0
    } else {
        s[0].1.spec_total() + chain_grand(s.drop_first())
    }
}

/// No two entries of the chain share a key.
pub open spec fn distinct_keys(s: Seq<(char, WeightedCharSet)>) -> bool {
    forall|i: int, j: int| 0 <= i < j < s.len() ==> s[i].0 != s[j].0
}

proof fn lemma_chain_found(s: Seq<(char, WeightedCharSet)>, a: char, b: char, i: int)
    requires
        0 <= i < s.len(),
        s[i].0 == a,
        forall|j: int| 0 <= j < i ==> s[j].0 != a,
    ensures
        chain_has(s, a),
        chain_total(s, a) == s[i].1.spec_total(),
        chain_weight(s, a, b) == s[i].1.spec_weight(b),
    decreases i,
{
    if i > 0 {
        lemma_chain_found(s.drop_first(), a, b, i - 1);
    }
}

proof fn lemma_chain_absent(s: Seq<(char, WeightedCharSet)>, a: char, b: char)
    requires
        forall|j: int| 0 <= j < s.len() ==> s[j].0 != a,
    ensures
        !chain_has(s, a),
        chain_total(s, a) == 0,
        chain_weight(s, a, b) == 0,
    decreases s.len(),
{
    if s.len() > 0 {
        lemma_chain_absent(s.drop_first(), a, b);
    }
}

proof fn lemma_chain_index_has(s: Seq<(char, WeightedCharSet)>, i: int)
    requires
        0 <= i < s.len(),
    ensures
        chain_has(s, s[i].0),
    decreases i,
{
    if i > 0 && s[0].0 != s[i].0 {
        lemma_chain_index_has(s.drop_first(), i - 1);
    }
}

proof fn lemma_chain_has_index(s: Seq<(char, WeightedCharSet)>, a: char)
    requires
        chain_has(s, a),
    ensures
        exists|i: int| 0 <= i < s.len() && s[i].0 == a,
    decreases s.len(),
{
    if s[0].0 == a {
        assert(0 <= 0 < s.len() && s[0].0 == a);
    } else {
        lemma_chain_has_index(s.drop_first(), a);
        let i = choose|i: int| 0 <= i < s.drop_first().len() && s.drop_first()[i].0 == a;
        assert(s[i + 1].0 == a);
    }
}

proof fn lemma_grand_nonneg(s: Seq<(char, WeightedCharSet)>)
    ensures
        chain_grand(s) >= 0,
    decreases s.len(),
{
    if s.len() > 0 {
        lemma_grand_nonneg(s.drop_first());
    }
}

proof fn lemma_chain_total_le_grand(s: Seq<(char, WeightedCharSet)>, a: char)
    ensures
        chain_total(s, a) <= chain_grand(s),
    decreases s.len(),
{
    if s.len() > 0 {
        lemma_grand_nonneg(s.drop_first());
        lemma_chain_total_le_grand(s.drop_first(), a);
    }
}

proof fn lemma_chain_update(
    s: Seq<(char, WeightedCharSet)>,
    i: int,
    e: (char, WeightedCharSet),
    x: char,
    y: char,
)
    requires
        0 <= i < s.len(),
        s[i].0 == e.0,
        forall|j: int| 0 <= j < s.len() && j != i ==> s[j].0 != s[i].0,
    ensures
        chain_grand(s.update(i, e)) == chain_grand(s) - s[i].1.spec_total() + e.1.spec_total(),
        chain_has(s.update(i, e), x) <==> chain_has(s, x),
        chain_total(s.update(i, e), x) == if x == e.0 {
            e.1.spec_total()
        } else {
            chain_total(s, x)
        },
        chain_weight(s.update(i, e), x, y) == if x == e.0 {
            e.1.spec_weight(y)
        } else {
            chain_weight(s, x, y)
        },
    decreases i,
{
    if i == 0 {
        assert(s.update(0, e).drop_first() =~= s.drop_first());
        assert(s.update(0, e)[0] == e);
    } else {
        assert(s.update(i, e).drop_first() =~= s.drop_first().update(i - 1, e));
        assert(s.update(i, e)[0] == s[0]);
        assert forall|j: int|
            0 <= j < s.drop_first().len() && j != i - 1 implies (#[trigger] s.drop_first()[j]).0
            != s.drop_first()[i - 1].0 by {
            assert(s.drop_first()[j] == s[j + 1]);
        }
        lemma_chain_update(s.drop_first(), i - 1, e, x, y);
        assert(s[0].0 != s[i].0);
    }
}

proof fn lemma_chain_push(s: Seq<(char, WeightedCharSet)>, e: (char, WeightedCharSet), x: char, y: char)
    ensures
        chain_grand(s.push(e)) == chain_grand(s) + e.1.spec_total(),
        chain_has(s.push(e), x) <==> (chain_has(s, x) || x == e.0),
        chain_total(s.push(e), x) == if chain_has(s, x) {
            chain_total(s, x)
        } else if x == e.0 {
            e.1.spec_total()
        } else {
            0u32
        },
        chain_weight(s.push(e), x, y) == if chain_has(s, x) {
            chain_weight(s, x, y)
        } else if x == e.0 {
            e.1.spec_weight(y)
        } else {
            0u32
        },
    decreases s.len(),
{
    if s.len() == 0 {
        assert(s.push(e).drop_first() =~= Seq::<(char, WeightedCharSet)>::empty());
        assert(s.push(e)[0] == e);
        assert(chain_grand(s.push(e).drop_first()) == 0);
        assert(!chain_has(s, x));
        assert(!chain_has(s.push(e).drop_first(), x));
        assert(chain_has(s.push(e), x) <==> x == e.0);
        assert(chain_total(s.push(e).drop_first(), x) == 0);
        assert(chain_weight(s.push(e).drop_first(), x, y) == 0);
    } else {
        assert(s.push(e).drop_first() =~= s.drop_first().push(e));
        assert(s.push(e)[0] == s[0]);
        lemma_chain_push(s.drop_first(), e, x, y);
        if s[0].0 == x {
            assert(chain_has(s, x));
            assert(chain_has(s.push(e), x));
            assert(chain_total(s.push(e), x) == s[0].1.spec_total());
            assert(chain_weight(s.push(e), x, y) == s[0].1.spec_weight(y));
        } else {
            assert(chain_has(s, x) <==> chain_has(s.drop_first(), x));
            assert(chain_has(s.push(e), x) <==> chain_has(s.drop_first().push(e), x));
            assert(chain_total(s.push(e), x) == chain_total(s.drop_first().push(e), x));
            assert(chain_weight(s.push(e), x, y) == chain_weight(s.drop_first().push(e), x, y));
            assert(chain_total(s, x) == chain_total(s.drop_first(), x));
            assert(chain_weight(s, x, y) == chain_weight(s.drop_first(), x, y));
        }
    }
}

proof fn lemma_pair_count_push(t: Seq<char>, z: char, a: char, b: char)
    ensures
        pair_count(t.push(z), a, b) == pair_count(t, a, b) + if t.len() >= 1 && t.last() == a && z
            == b {
            1int
        } else {
            0int
        },
    decreases t.len(),
{
    if t.len() == 0 {
        assert(t.push(z).len() == 1);
    } else if t.len() == 1 {
        assert(t.push(z)[0] == t[0]);
        assert(t.push(z)[1] == z);
        assert(t.push(z).drop_first() =~= Seq::<char>::empty().push(z));
        assert(pair_count(t.push(z).drop_first(), a, b) == 0);
        assert(t.last() == t[0]);
    } else {
        assert(t.push(z).drop_first() =~= t.drop_first().push(z));
        assert(t.push(z)[0] == t[0]);
        assert(t.push(z)[1] == t[1]);
        lemma_pair_count_push(t.drop_first(), z, a, b);
        assert(t.drop_first().last() == t.last());
    }
}

proof fn lemma_lead_count_push(t: Seq<char>, z: char, a: char)
    ensures
        lead_count(t.push(z), a) == lead_count(t, a) + if t.len() >= 1 && t.last() == a {
            1int
        } else {
            0int
        },
    decreases t.len(),
{
    if t.len() == 0 {
        assert(t.push(z).len() == 1);
    } else if t.len() == 1 {
        assert(t.push(z)[0] == t[0]);
        assert(t.push(z).drop_first() =~= Seq::<char>::empty().push(z));
        assert(lead_count(t.push(z).drop_first(), a) == 0);
        assert(t.last() == t[0]);
    } else {
        assert(t.push(z).drop_first() =~= t.drop_first().push(z));
        assert(t.push(z)[0] == t[0]);
        lemma_lead_count_push(t.drop_first(), z, a);
        assert(t.drop_first().last() == t.last());
    }
}

proof fn lemma_lead_count_nonneg(t: Seq<char>, a: char)
    ensures
        lead_count(t, a) >= 0,
    decreases t.len(),
{
    if t.len() >= 2 {
        lemma_lead_count_nonneg(t.drop_first(), a);
    }
}

/// A first-order Markov model: each observed predecessor character is keyed
/// to the weighted set of its observed successors.
pub struct MarkovTextGenerator {
    chain: Vec<(char, WeightedCharSet)>,
}

impl MarkovTextGenerator {
    /// The predecessor entries, in their stable order.
    pub closed spec fn entries(self) -> Seq<(char, WeightedCharSet)> {
        self.chain@
    }

    /// Whether `a` has been observed as a predecessor.
    pub open spec fn spec_has_key(self, a: char) -> bool {
        chain_has(self.entries(), a)
    }

    /// Number of observed pairs `(a, b)` so far.
    pub open spec fn spec_weight_of(self, a: char, b: char) -> u32 {
        chain_weight(self.entries(), a, b)
    }

    /// Number of observed pairs `(a, *)` so far.
    pub open spec fn spec_total_of(self, a: char) -> u32 {
        chain_total(self.entries(), a)
    }

    /// Number of observed pairs over all predecessors.
    pub open spec fn spec_grand(self) -> int {
        chain_grand(self.entries())
    }

    /// Well-formedness: keys are unique, every successor set is well-formed
    /// with only positive weights, and every key owns at least one
    /// observation.
    pub open spec fn wf(self) -> bool {
        &&& distinct_keys(self.entries())
        &&& forall|i: int|
            0 <= i < self.entries().len() ==> (#[trigger] self.entries()[i]).1.wf()
                && self.entries()[i].1.all_positive() && self.entries()[i].1.spec_total() >= 1
    }

    /// An empty model.
    pub fn new() -> (r: Self)
        ensures
            r.wf(),
            r.spec_grand() == 0,
            forall|a: char| !r.spec_has_key(a),
            forall|a: char| r.spec_total_of(a) == 0,
            forall|a: char, b: char| r.spec_weight_of(a, b) == 0,
    {
        let r = MarkovTextGenerator { chain: Vec::new() };
        proof {
            assert forall|a: char| !r.spec_has_key(a) && r.spec_total_of(a) == 0 by {
                lemma_chain_absent(r.entries(), a, a);
            }
            assert forall|a: char, b: char| r.spec_weight_of(a, b) == 0 by {
                lemma_chain_absent(r.entries(), a, b);
            }
        }
        r
    }

    fn find_key(&self, a: char) -> (r: Option<usize>)
        ensures
            match r {
                Some(i) => {
                    &&& i < self.entries().len()
                    &&& self.entries()[i as int].0 == a
                    &&& forall|j: int| 0 <= j < i ==> self.entries()[j].0 != a
                },
                None => forall|j: int| 0 <= j < self.entries().len() ==> self.entries()[j].0 != a,
            },
    {
        let n = self.chain.len();
        let mut i: usize = 0;
        while i < n
            invariant
                n == self.entries().len(),
                i <= n,
                forall|j: int| 0 <= j < i ==> self.entries()[j].0 != a,
            decreases n - i,
        {
            if self.chain[i].0 == a {
                return Some(i);
            }
            i = i + 1;
        }
        None
    }

    /// Record one observation of the pair `(a, b)`.
    fn bump(&mut self, a: char, b: char)
        requires
            old(self).wf(),
            old(self).spec_grand() + 1 <= u32::MAX,
        ensures
            final(self).wf(),
            final(self).spec_grand() == old(self).spec_grand() + 1,
            final(self).spec_weight_of(a, b) == old(self).spec_weight_of(a, b) + 1,
            forall|x: char, y: char|
                !(x == a && y == b) ==> final(self).spec_weight_of(x, y) == old(
                    self,
                ).spec_weight_of(x, y),
            final(self).spec_total_of(a) == old(self).spec_total_of(a) + 1,
            forall|x: char| x != a ==> final(self).spec_total_of(x) == old(self).spec_total_of(x),
            forall|x: char|
                final(self).spec_has_key(x) <==> (old(self).spec_has_key(x) || x == a),
    {
        let ghost s = self.entries();
        match self.find_key(a) {
            Some(i) => {
                proof {
                    lemma_chain_found(s, a, b, i as int);
                    lemma_chain_total_le_grand(s, a);
                }
                let entry = &mut self.chain[i];
                entry.1.increment(b, 1);
                proof {
                    let e = self.entries()[i as int];
                    assert(e.0 == a);
                    assert(self.entries() =~= s.update(i as int, e));
                    assert forall|j: int|
                        0 <= j < s.len() && j != i implies s[j].0 != s[i as int].0 by {}
                    assert forall|x: char, y: char|
                        self.spec_weight_of(x, y) == if x == a {
                            e.1.spec_weight(y)
                        } else {
                            chain_weight(s, x, y)
                        } by {
                        lemma_chain_update(s, i as int, e, x, y);
                    }
                    assert forall|x: char|
                        (self.spec_total_of(x) == if x == a {
                            e.1.spec_total()
                        } else {
                            chain_total(s, x)
                        }) && (self.spec_has_key(x) <==> chain_has(s, x)) by {
                        lemma_chain_update(s, i as int, e, x, x);
                    }
                    lemma_chain_update(s, i as int, e, a, b);
                    lemma_chain_index_has(s, i as int);
                    assert forall|x: char|
                        x != a implies self.spec_total_of(x) == old(self).spec_total_of(x) by {
                        lemma_chain_update(s, i as int, e, x, x);
                    }
                    assert forall|x: char, y: char|
                        !(x == a && y == b) implies self.spec_weight_of(x, y) == old(
                        self,
                    ).spec_weight_of(x, y) by {
                        lemma_chain_update(s, i as int, e, x, y);
                        if x == a {
                            lemma_chain_found(s, a, y, i as int);
                        }
                    }
                    assert forall|j: int|
                        0 <= j < self.entries().len() implies (#[trigger] self.entries()[
                        j
                    ]).1.wf() && self.entries()[j].1.all_positive() && self.entries()[
                        j
                    ].1.spec_total() >= 1 by {
                        if j != i {
                            assert(self.entries()[j] == s[j]);
                        }
                    }
                    assert forall|p: int, q: int|
                        0 <= p < q < self.entries().len() implies (#[trigger] self.entries()[
                        p
                    ]).0 != (#[trigger] self.entries()[q]).0 by {
                        assert(self.entries()[p].0 == s[p].0);
                        assert(self.entries()[q].0 == s[q].0);
                    }
                }
            },
            None => {
                let mut set = WeightedCharSet::new();
                set.increment(b, 1);
                self.chain.push((a, set));
                proof {
                    let e = (a, set);
                    lemma_chain_absent(s, a, b);
                    assert forall|x: char, y: char|
                        self.spec_weight_of(x, y) == if chain_has(s, x) {
                            chain_weight(s, x, y)
                        } else if x == a {
                            e.1.spec_weight(y)
                        } else {
                            0u32
                        } by {
                        lemma_chain_push(s, e, x, y);
                    }
                    assert forall|x: char|
                        (self.spec_total_of(x) == if chain_has(s, x) {
                            chain_total(s, x)
                        } else if x == a {
                            e.1.spec_total()
                        } else {
                            0u32
                        }) && (self.spec_has_key(x) <==> (chain_has(s, x) || x == a)) by {
                        lemma_chain_push(s, e, x, x);
                    }
                    lemma_chain_push(s, e, a, b);
                    assert forall|x: char|
                        x != a implies self.spec_total_of(x) == chain_total(s, x) by {
                        if !chain_has(s, x) {
                            assert forall|j: int|
                                0 <= j < s.len() implies (#[trigger] s[j]).0 != x by {
                                if s[j].0 == x {
                                    lemma_chain_index_has(s, j);
                                }
                            }
                            lemma_chain_absent(s, x, x);
                        }
                    }
                    assert forall|x: char, y: char|
                        !(x == a && y == b) implies self.spec_weight_of(x, y) == chain_weight(
                        s,
                        x,
                        y,
                    ) by {
                        if x == a {
                            lemma_chain_absent(s, a, y);
                        } else if !chain_has(s, x) {
                            assert forall|j: int|
                                0 <= j < s.len() implies (#[trigger] s[j]).0 != x by {
                                if s[j].0 == x {
                                    lemma_chain_index_has(s, j);
                                }
                            }
                            lemma_chain_absent(s, x, y);
                        }
                    }
                    assert forall|j: int|
                        0 <= j < self.entries().len() implies (#[trigger] self.entries()[
                        j
                    ]).1.wf() && self.entries()[j].1.all_positive() && self.entries()[
                        j
                    ].1.spec_total() >= 1 by {
                        if j < s.len() {
                            assert(self.entries()[j] == s[j]);
                        } else {
                            assert(self.entries()[j] == e);
                        }
                    }
                    assert forall|p: int, q: int|
                        0 <= p < q < self.entries().len() implies (#[trigger] self.entries()[
                        p
                    ]).0 != (#[trigger] self.entries()[q]).0 by {
                        if q == s.len() {
                            assert(self.entries()[p] == s[p]);
                        }
                    }
                }
            },
        }
    }

    /// Ingest a training text: every adjacent ordered pair `(a, b)` of its
    /// characters raises the weight of `b` under `a` by one. A text of length
    /// zero or one changes nothing, and no pair spans two calls: successive
    /// calls are independent streams.
    pub fn load(&mut self, text: &str)
        requires
            old(self).wf(),
            old(self).spec_grand() + text@.len() <= u32::MAX,
        ensures
            final(self).wf(),
            forall|a: char, b: char|
                #[trigger] final(self).spec_weight_of(a, b) == old(self).spec_weight_of(a, b)
                    + pair_count(text@, a, b),
            forall|a: char|
                #[trigger] final(self).spec_total_of(a) == old(self).spec_total_of(a)
                    + lead_count(text@, a),
            forall|a: char|
                final(self).spec_has_key(a) <==> (old(self).spec_has_key(a) || lead_count(
                    text@,
                    a,
                ) > 0),
            final(self).spec_grand() == old(self).spec_grand() + if text@.len() == 0 {
                0int
            } else {
                text@.len() - 1
            },
    {
        let n = text.unicode_len();
        if n == 0 {
            proof {
                assert forall|a: char, b: char| pair_count(text@, a, b) == 0 by {}
                assert forall|a: char| lead_count(text@, a) == 0 by {}
            }
            return;
        }
        let mut prev = text.get_char(0);
        let mut i: usize = 1;
        proof {
            assert forall|a: char, b: char| pair_count(text@.take(1), a, b) == 0 by {
                assert(text@.take(1).len() == 1);
            }
            assert forall|a: char| lead_count(text@.take(1), a) == 0 by {
                assert(text@.take(1).len() == 1);
            }
            assert(text@.take(1)[0] == text@[0]);
        }
        while i < n
            invariant
                self.wf(),
                n == text@.len(),
                1 <= i <= n,
                prev == text@[i as int - 1],
                self.spec_grand() == old(self).spec_grand() + (i - 1),
                old(self).spec_grand() + text@.len() <= u32::MAX,
                forall|a: char, b: char|
                    #[trigger] self.spec_weight_of(a, b) == old(self).spec_weight_of(a, b)
                        + pair_count(text@.take(i as int), a, b),
                forall|a: char|
                    #[trigger] self.spec_total_of(a) == old(self).spec_total_of(a) + lead_count(
                        text@.take(i as int),
                        a,
                    ),
                forall|a: char|
                    self.spec_has_key(a) <==> (old(self).spec_has_key(a) || lead_count(
                        text@.take(i as int),
                        a,
                    ) > 0),
            decreases n - i,
        {
            let c = text.get_char(i);
            let ghost t = text@.take(i as int);
            self.bump(prev, c);
            proof {
                assert(text@.take(i as int + 1) =~= t.push(text@[i as int]));
                assert(t.len() == i);
                assert(t.last() == text@[i as int - 1]);
                assert(t.last() == prev);
                assert forall|a: char, b: char|
                    #[trigger] self.spec_weight_of(a, b) == old(self).spec_weight_of(a, b)
                        + pair_count(text@.take(i as int + 1), a, b) by {
                    lemma_pair_count_push(t, text@[i as int], a, b);
                }
                assert forall|a: char|
                    #[trigger] self.spec_total_of(a) == old(self).spec_total_of(a) + lead_count(
                        text@.take(i as int + 1),
                        a,
                    ) by {
                    lemma_lead_count_push(t, text@[i as int], a);
                }
                assert forall|a: char|
                    self.spec_has_key(a) <==> (old(self).spec_has_key(a) || lead_count(
                        text@.take(i as int + 1),
                        a,
                    ) > 0) by {
                    lemma_lead_count_push(t, text@[i as int], a);
                    lemma_lead_count_nonneg(t, a);
                }
            }
            prev = c;
            i = i + 1;
        }
        proof {
            assert(text@.take(n as int) =~= text@);
        }
    }

    /// A read-only view of the successor set recorded for `a`, when `a` has
    /// been observed as a predecessor.
    pub fn successors(&self, a: char) -> (r: Option<&WeightedCharSet>)
        requires
            self.wf(),
        ensures
            (r is Some) <==> self.spec_has_key(a),
            (r matches Some(set) ==> set.wf() && set.all_positive() && set.spec_total()
                == self.spec_total_of(a) && set.spec_total() >= 1 && (forall|b: char|
                set.spec_weight(b) == self.spec_weight_of(a, b))),
    {
        match self.find_key(a) {
            Some(i) => {
                proof {
                    lemma_chain_index_has(self.entries(), i as int);
                    lemma_chain_found(self.entries(), a, a, i as int);
                    assert(self.entries()[i as int].1.wf());
                    assert forall|b: char|
                        self.entries()[i as int].1.spec_weight(b) == self.spec_weight_of(
                        a,
                        b,
                    ) by {
                        lemma_chain_found(self.entries(), a, b, i as int);
                    }
                }
                Some(&self.chain[i].1)
            },
            None => {
                proof {
                    lemma_chain_absent(self.entries(), a, a);
                }
                None
            },
        }
    }

    /// Draw a successor of `a` with probability proportional to its weight;
    /// fails exactly when `a` was never observed as a predecessor.
    pub fn draw_successor(&self, a: char, rng: &mut rand::rngs::StdRng) -> (res: Result<
        char,
        DrawError,
    >)
        requires
            self.wf(),
        ensures
            (res is Err) <==> !self.spec_has_key(a),
            res is Err ==> res == Err::<char, DrawError>(DrawError::UnknownPredecessor),
            (res matches Ok(b) ==> self.spec_weight_of(a, b) >= 1),
    {
        match self.successors(a) {
            None => Err(DrawError::UnknownPredecessor),
            Some(set) => set.draw(rng),
        }
    }

    /// A character is a key exactly when at least one observation was counted
    /// for it.
    pub proof fn lemma_key_iff_total_pos(self, a: char)
        requires
            self.wf(),
        ensures
            self.spec_has_key(a) <==> self.spec_total_of(a) >= 1,
    {
        let s = self.entries();
        if self.spec_has_key(a) {
            lemma_chain_has_index(s, a);
            let i = choose|i: int| 0 <= i < s.len() && s[i].0 == a;
            assert forall|j: int| 0 <= j < i implies (#[trigger] s[j]).0 != a by {}
            lemma_chain_found(s, a, a, i);
        } else {
            if !(forall|j: int| 0 <= j < s.len() ==> (#[trigger] s[j]).0 != a) {
                let j = choose|j: int| 0 <= j < s.len() && s[j].0 == a;
                lemma_chain_index_has(s, j);
            }
            lemma_chain_absent(s, a, a);
        }
    }

    /// No single edge weight exceeds its predecessor's total.
    pub proof fn lemma_edge_le_total(self, a: char, b: char)
        requires
            self.wf(),
        ensures
            self.spec_weight_of(a, b) <= self.spec_total_of(a),
    {
        let s = self.entries();
        if self.spec_has_key(a) {
            lemma_chain_has_index(s, a);
            let i = choose|i: int| 0 <= i < s.len() && s[i].0 == a;
            assert forall|j: int| 0 <= j < i implies (#[trigger] s[j]).0 != a by {}
            lemma_chain_found(s, a, b, i);
            s[i].1.lemma_weight_le_total(b);
        } else {
            if !(forall|j: int| 0 <= j < s.len() ==> (#[trigger] s[j]).0 != a) {
                let j = choose|j: int| 0 <= j < s.len() && s[j].0 == a;
                lemma_chain_index_has(s, j);
            }
            lemma_chain_absent(s, a, b);
        }
    }
}

} // verus!
