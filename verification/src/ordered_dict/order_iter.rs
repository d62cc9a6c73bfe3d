//! The insertion-order record of an ordered dictionary.
//!
//! [`OrderLinkMap`] keeps the distinct keys of the dictionary in the
//! order they were first inserted.  Its view is the sequence of key
//! views, and its well-formedness says the keys are pairwise distinct.
//! [`MapLink`] reports, for one key, its neighbours in that order.

use vstd::prelude::*;

verus! {

/// The keys are pairwise distinct.
pub open spec fn keys_distinct(ks: Seq<Seq<char>>) -> bool {
    forall|i: int, j: int| 0 <= i < j < ks.len() ==> ks[i] != ks[j]
}

/// `k` occurs among `ks`.
pub open spec fn contains_key_seq(ks: Seq<Seq<char>>, k: Seq<char>) -> bool {
    exists|i: int| 0 <= i < ks.len() && ks[i] == k
}

/// The position of `k` in `ks` (meaningful when it occurs; unique when
/// the keys are distinct).
pub open spec fn index_of_key(ks: Seq<Seq<char>>, k: Seq<char>) -> int {
    choose|i: int| 0 <= i < ks.len() && ks[i] == k
}

/// The entries of `s` whose decision bit is set, in order.
pub open spec fn filter_by<T>(s: Seq<T>, d: Seq<bool>) -> Seq<T>
    decreases s.len(),
{
    if s.len() == 0 {
        Seq::empty()
    } else {
        let rest = filter_by(s.drop_last(), d.drop_last());
        if d[s.len() - 1] {
            rest.push(s.last())
        } else {
            rest
        }
    }
}

/// Filtering one more entry keeps it exactly when its bit is set.
pub proof fn lemma_filter_by_push<T>(s: Seq<T>, d: Seq<bool>, x: T, b: bool)
    requires
        s.len() == d.len(),
    ensures
        filter_by(s.push(x), d.push(b)) == if b {
            filter_by(s, d).push(x)
        } else {
            filter_by(s, d)
        },
{
    assert(s.push(x).drop_last() =~= s);
    assert(d.push(b).drop_last() =~= d);
    assert(s.push(x).last() == x);
    assert(d.push(b)[s.len() as int] == b);
}

/// What a run of `retain` with predicate `f` did, relating the old key
/// views `before` to the new ones `after`: for each old key there is a
/// String with that key's characters and a decision that `f` can answer
/// on it, and the survivors are exactly the keys whose decision is
/// true, in their old order.
pub open spec fn keys_retained<F: Fn(&String) -> bool>(
    f: F,
    before: Seq<Seq<char>>,
    after: Seq<Seq<char>>,
    ks: Seq<String>,
    d: Seq<bool>,
) -> bool {
    &&& ks.len() == before.len()
    &&& d.len() == before.len()
    &&& forall|i: int| 0 <= i < ks.len() ==> (#[trigger] ks[i])@ == before[i]
    &&& forall|i: int| 0 <= i < d.len() ==> call_ensures(f, (&ks[i],), #[trigger] d[i])
    &&& after == filter_by(before, d)
}

/// `ks` is `ks0` with some keys deleted: the surviving keys keep their
/// relative order.
pub open spec fn is_key_subsequence(ks: Seq<Seq<char>>, ks0: Seq<Seq<char>>) -> bool
    decreases ks0.len(),
{
    if ks.len() == 0 {
        true
    } else if ks0.len() == 0 {
        false
    } else {
        (ks.last() == ks0.last() && is_key_subsequence(ks.drop_last(), ks0.drop_last()))
            || is_key_subsequence(ks, ks0.drop_last())
    }
}

/// Picking entries of `ks0` at strictly increasing positions yields a
/// subsequence.
pub proof fn lemma_selection_is_key_subsequence(
    ks: Seq<Seq<char>>,
    ks0: Seq<Seq<char>>,
    pos: Seq<int>,
)
    requires
        pos.len() == ks.len(),
        forall|m: int|
            0 <= m < pos.len() ==> 0 <= #[trigger] pos[m] < ks0.len() && ks[m] == ks0[pos[m]],
        forall|a: int, b: int| 0 <= a < b < pos.len() ==> pos[a] < pos[b],
    ensures
        is_key_subsequence(ks, ks0),
    decreases ks0.len(),
{
    if ks.len() > 0 {
        let lastm = ks.len() - 1;
        assert(0 <= pos[lastm] < ks0.len());
        if pos[lastm] == ks0.len() - 1 {
            assert(ks.last() == ks0.last());
            assert forall|m: int|
                0 <= m < pos.drop_last().len() implies 0 <= #[trigger] pos.drop_last()[m]
                < ks0.drop_last().len() && ks.drop_last()[m] == ks0.drop_last()[pos.drop_last()[m]] by {
                assert(pos[m] < pos[lastm]);
            }
            lemma_selection_is_key_subsequence(ks.drop_last(), ks0.drop_last(), pos.drop_last());
        } else {
            assert forall|m: int|
                0 <= m < pos.len() implies 0 <= #[trigger] pos[m] < ks0.drop_last().len() && ks[m]
                == ks0.drop_last()[pos[m]] by {
                if m < lastm {
                    assert(pos[m] < pos[lastm]);
                }
            }
            lemma_selection_is_key_subsequence(ks, ks0.drop_last(), pos);
        }
    }
}

/// The neighbours of one key in the insertion order: the key inserted
/// right after it (`next`) and right before it (`prev`), if any.
#[derive(Debug, Clone, PartialEq, Eq)]
pub struct MapLink {
    next: Option<String>,
    prev: Option<String>,
}

impl MapLink {
    /// The view of the neighbouring key on the later side, if any.
    pub closed spec fn next_of(&self) -> Option<Seq<char>> {
        match self.next {
            Some(ref s) => Some(s@),
            None => None,
        }
    }

    /// The view of the neighbouring key on the earlier side, if any.
    pub closed spec fn prev_of(&self) -> Option<Seq<char>> {
        match self.prev {
            Some(ref s) => Some(s@),
            None => None,
        }
    }
}

/// Walks the keys of an [`OrderLinkMap`] in insertion order, over a
/// snapshot taken when the iteration began.
pub struct OrderIter {
    keys: Vec<String>,
}

impl OrderIter {
    /// The keys not yet handed out, in order.
    pub closed spec fn remaining(&self) -> Seq<Seq<char>> {
        Seq::new(self.keys@.len(), |i: int| self.keys@[i]@)
    }

    /// The next key in insertion order, or `None` at the end.
    pub fn next(&mut self) -> (r: Option<String>)
        ensures
            old(self).remaining().len() == 0 ==> r is None && final(self).remaining()
                == old(self).remaining(),
            old(self).remaining().len() > 0 ==> r is Some && r->0@ == old(self).remaining()[0]
                && final(self).remaining() == old(self).remaining().drop_first(),
    {
        if self.keys.len() == 0 {
            None
        } else {
            let k = self.keys.remove(0);
            proof {
                assert(self.remaining() =~= old(self).remaining().drop_first());
            }
            Some(k)
        }
    }

    /// Bounds on how many keys are left: exactly the remaining count.
    pub fn size_hint(&self) -> (r: (usize, Option<usize>))
        ensures
            r.0 == self.remaining().len(),
            r.1 == Some(self.remaining().len() as usize),
    {
        (self.keys.len(), Some(self.keys.len()))
    }
}

/// Consumes an [`OrderLinkMap`], handing out its keys in insertion
/// order.
pub struct OrderIntoIter {
    underlying: OrderLinkMap,
}

impl OrderIntoIter {
    /// The keys not yet handed out, in order.
    pub closed spec fn remaining(&self) -> Seq<Seq<char>> {
        self.underlying@
    }

    /// The next key in insertion order, or `None` at the end.
    pub fn next(&mut self) -> (r: Option<String>)
        ensures
            old(self).remaining().len() == 0 ==> r is None && final(self).remaining()
                == old(self).remaining(),
            old(self).remaining().len() > 0 ==> r is Some && r->0@ == old(self).remaining()[0]
                && final(self).remaining() == old(self).remaining().drop_first(),
    {
        if self.underlying.keys.len() == 0 {
            None
        } else {
            let k = self.underlying.keys.remove(0);
            proof {
                assert(self.remaining() =~= old(self).remaining().drop_first());
            }
            Some(k)
        }
    }

    /// Bounds on how many keys are left: exactly the remaining count.
    pub fn size_hint(&self) -> (r: (usize, Option<usize>))
        ensures
            r.0 == self.remaining().len(),
            r.1 == Some(self.remaining().len() as usize),
    {
        (self.underlying.keys.len(), Some(self.underlying.keys.len()))
    }
}

/// The record of the order in which distinct keys were inserted.
#[derive(Debug, Clone, PartialEq, Eq)]
pub struct OrderLinkMap {
    keys: Vec<String>,
}

impl View for OrderLinkMap {
    type V = Seq<Seq<char>>;

    closed spec fn view(&self) -> Seq<Seq<char>> {
        Seq::new(self.keys@.len(), |i: int| self.keys@[i]@)
    }
}

impl OrderLinkMap {
    /// The keys it holds are pairwise distinct.
    pub open spec fn wf(&self) -> bool {
        keys_distinct(self@)
    }

    /// Creates an empty order record.
    pub fn new() -> (r: OrderLinkMap)
        ensures
            r@.len() == 0,
            r.wf(),
    {
        OrderLinkMap { keys: Vec::new() }
    }

    /// The position of `k`, if it is present.
    pub fn position_of(&self, k: &String) -> (r: Option<usize>)
        ensures
            match r {
                Some(i) => 0 <= i < self@.len() && self@[i as int] == k@,
                None => !contains_key_seq(self@, k@),
            },
    {
        let n = self.keys.len();
        let mut i: usize = 0;
        while i < n
            invariant
                n == self@.len(),
                n == self.keys@.len(),
                i <= n,
                forall|m: int| 0 <= m < i ==> self@[m] != k@,
            decreases n - i,
        {
            if self.keys[i].eq(k) {
                return Some(i);
            }
            i = i + 1;
        }
        None
    }

    /// Appends `k` to the order unless it is already recorded.
    pub fn insert(&mut self, k: String)
        requires
            old(self).wf(),
        ensures
            final(self).wf(),
            contains_key_seq(old(self)@, k@) ==> final(self)@ == old(self)@,
            !contains_key_seq(old(self)@, k@) ==> final(self)@ == old(self)@.push(k@),
    {
        match self.position_of(&k) {
            Some(_) => {
            },
            None => {
                self.keys.push(k);
                proof {
                    assert(self@ =~= old(self)@.push(k@));
                }
            },
        }
    }

    /// Forgets every key.
    pub fn clear(&mut self)
        ensures
            final(self)@.len() == 0,
            final(self).wf(),
    {
        self.keys.clear();
    }

    /// Starts a walk over the keys in insertion order.
    pub fn iter(&self) -> (r: OrderIter)
        ensures
            r.remaining() == self@,
    {
        let snapshot = self.keys.clone();
        proof {
            assert(Seq::new(snapshot@.len(), |i: int| snapshot@[i]@) =~= self@);
        }
        OrderIter { keys: snapshot }
    }

    /// A copy of the keys, in insertion order.
    pub fn to_vec(&self) -> (r: Vec<String>)
        ensures
            r@.len() == self@.len(),
            forall|i: int| 0 <= i < r@.len() ==> #[trigger] r@[i]@ == self@[i],
    {
        let snapshot = self.keys.clone();
        snapshot
    }

    /// The number of keys recorded.
    pub fn len(&self) -> (n: usize)
        ensures
            n == self@.len(),
    {
        self.keys.len()
    }

    /// Turns the record into a walk over its keys.
    pub fn into_iter(self) -> (r: OrderIntoIter)
        ensures
            r.remaining() == self@,
    {
        OrderIntoIter { underlying: self }
    }

    /// The neighbours of `k` in the insertion order, if `k` is recorded.
    pub fn get(&self, k: &String) -> (r: Option<MapLink>)
        requires
            self.wf(),
        ensures
            r is Some <==> contains_key_seq(self@, k@),
            r is Some ==> {
                let i = index_of_key(self@, k@);
                &&& r->0.prev_of() == if i == 0 {
                    Option::<Seq<char>>::None
                } else {
                    Some(self@[i - 1])
                }
                &&& r->0.next_of() == if i == self@.len() - 1 {
                    Option::<Seq<char>>::None
                } else {
                    Some(self@[i + 1])
                }
            },
    {
        match self.position_of(k) {
            Some(i) => {
                proof {
                    assert(self@[i as int] == k@);
                    assert(index_of_key(self@, k@) == i);
                    assert(i < self.keys@.len());
                }
                let n = self.keys.len();
                let prev = if i == 0 {
                    None
                } else {
                    Some(self.keys[i - 1].clone())
                };
                let next = if i + 1 == n {
                    None
                } else {
                    Some(self.keys[i + 1].clone())
                };
                Some(MapLink { next, prev })
            },
            None => None,
        }
    }

    /// Keeps, in their old order, exactly the keys `f` accepted, and
    /// drops exactly those it rejected; some decision of `f` on each
    /// old key witnesses the split.
    pub fn retain<F: Fn(&String) -> bool>(&mut self, f: F)
        requires
            old(self).wf(),
            forall|k: &String| #[trigger] call_requires(f, (k,)),
        ensures
            final(self).wf(),
            is_key_subsequence(final(self)@, old(self)@),
            forall|j: int|
                0 <= j < final(self)@.len() ==> contains_key_seq(
                    old(self)@,
                    #[trigger] final(self)@[j],
                ),
            exists|ks: Seq<String>, d: Seq<bool>| keys_retained(f, old(self)@, final(self)@, ks, d),
    {
        let ghost before = self@;
        let ghost ks0 = self.keys@;
        let n = self.keys.len();
        let mut kept: Vec<String> = Vec::new();
        let ghost mut positions: Seq<int> = Seq::empty();
        let ghost mut decisions: Seq<bool> = Seq::empty();
        let mut i: usize = 0;
        while i < n
            invariant
                n == before.len(),
                self@ == before,
                self.keys@ == ks0,
                self.keys@.len() == n,
                keys_distinct(before),
                i <= n,
                forall|k: &String| #[trigger] call_requires(f, (k,)),
                decisions.len() == i,
                forall|m: int|
                    0 <= m < i ==> call_ensures(f, (&ks0[m],), #[trigger] decisions[m]),
                Seq::new(kept@.len(), |m: int| kept@[m]@) == filter_by(
                    before.subrange(0, i as int),
                    decisions,
                ),
                positions.len() == kept@.len(),
                forall|m: int|
                    0 <= m < kept@.len() ==> 0 <= #[trigger] positions[m] < i && kept@[m]@
                        == before[positions[m]],
                forall|a: int, b: int| 0 <= a < b < positions.len() ==> positions[a] < positions[b],
            decreases n - i,
        {
            let ghost kept_before = kept@;
            let key = &self.keys[i];
            let keep = f(key);
            proof {
                assert(*key == ks0[i as int]);
                assert(call_ensures(f, (&ks0[i as int],), keep));
                assert(before.subrange(0, i as int + 1) =~= before.subrange(0, i as int).push(
                    before[i as int],
                ));
                lemma_filter_by_push(
                    before.subrange(0, i as int),
                    decisions,
                    before[i as int],
                    keep,
                );
                decisions = decisions.push(keep);
            }
            if keep {
                kept.push(key.clone());
                proof {
                    positions = positions.push(i as int);
                    assert(Seq::new(kept@.len(), |m: int| kept@[m]@) =~= Seq::new(
                        kept_before.len(),
                        |m: int| kept_before[m]@,
                    ).push(before[i as int]));
                }
            }
            i = i + 1;
        }
        self.keys = kept;
        proof {
            assert(before.subrange(0, n as int) =~= before);
            assert forall|a: int, b: int|
                0 <= a < b < self@.len() implies self@[a] != self@[b] by {
                assert(self@[a] == before[positions[a]]);
                assert(self@[b] == before[positions[b]]);
            }
            assert forall|j: int| 0 <= j < self@.len() implies contains_key_seq(
                before,
                #[trigger] self@[j],
            ) by {
                assert(self@[j] == before[positions[j]]);
            }
            lemma_selection_is_key_subsequence(self@, before, positions);
            assert forall|m: int| 0 <= m < ks0.len() implies (#[trigger] ks0[m])@ == before[m] by {
            }
            assert(self@ == filter_by(before, decisions));
            assert(keys_retained(f, before, self@, ks0, decisions));
        }
    }

    /// Makes room for `additional` more keys.
    pub fn reserve(&mut self, additional: usize)
        ensures
            final(self)@ == old(self)@,
            final(self).wf() == old(self).wf(),
    {
        self.keys.reserve(additional);
    }

    /// Removes `k` from the order, returning its neighbours, or `None`
    /// if it was not recorded.
    pub fn remove(&mut self, k: &String) -> (r: Option<MapLink>)
        requires
            old(self).wf(),
        ensures
            final(self).wf(),
            r is Some <==> contains_key_seq(old(self)@, k@),
            r is None ==> final(self)@ == old(self)@,
            r is Some ==> {
                let i = index_of_key(old(self)@, k@);
                &&& final(self)@ == old(self)@.remove(i)
                &&& r->0.prev_of() == if i == 0 {
                    Option::<Seq<char>>::None
                } else {
                    Some(old(self)@[i - 1])
                }
                &&& r->0.next_of() == if i == old(self)@.len() - 1 {
                    Option::<Seq<char>>::None
                } else {
                    Some(old(self)@[i + 1])
                }
            },
    {
        match self.position_of(k) {
            Some(i) => {
                proof {
                    assert(old(self)@[i as int] == k@);
                    assert(index_of_key(old(self)@, k@) == i);
                    assert(i < self.keys@.len());
                }
                let n = self.keys.len();
                let prev = if i == 0 {
                    None
                } else {
                    Some(self.keys[i - 1].clone())
                };
                let next = if i + 1 == n {
                    None
                } else {
                    Some(self.keys[i + 1].clone())
                };
                self.keys.remove(i);
                proof {
                    assert(self@ =~= old(self)@.remove(i as int));
                    assert forall|a: int, b: int|
                        0 <= a < b < self@.len() implies self@[a] != self@[b] by {
                        assert(self@[a] == if a < i {
                            old(self)@[a]
                        } else {
                            old(self)@[a + 1]
                        });
                        assert(self@[b] == if b < i {
                            old(self)@[b]
                        } else {
                            old(self)@[b + 1]
                        });
                    }
                }
                Some(MapLink { next, prev })
            },
            None => None,
        }
    }
}

} // verus!
