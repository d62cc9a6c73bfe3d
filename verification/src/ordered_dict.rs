//! A dictionary that hands its entries back in insertion order.
//!
//! [`OrderedDict`] maps string keys to values, like a hash map, but its
//! iteration walks the keys in the order they were first inserted.  The
//! specification views it as two aligned sequences: the distinct keys
//! in insertion order ([`OrderedDict::key_seq`]) and their values
//! ([`OrderedDict::val_seq`]).  Insertion of a known key replaces its
//! value in place; removal drops key and value together, closing the
//! order over the survivors.

use vstd::prelude::*;

pub mod order_iter;

verus! {

use crate::ordered_dict::order_iter::OrderLinkMap;
use crate::ordered_dict::order_iter::contains_key_seq;
use crate::ordered_dict::order_iter::filter_by;
use crate::ordered_dict::order_iter::index_of_key;
use crate::ordered_dict::order_iter::keys_distinct;
use crate::ordered_dict::order_iter::lemma_filter_by_push;

/// Walks the entries of an [`OrderedDict`] in insertion order, over a
/// snapshot of its keys and values.
pub struct Iter<V> {
    keys: Vec<String>,
    vals: Vec<V>,
}

impl<V> Iter<V> {
    /// The keys of the entries not yet handed out, in order.
    pub closed spec fn remaining_keys(&self) -> Seq<Seq<char>> {
        Seq::new(self.keys@.len(), |i: int| self.keys@[i]@)
    }

    /// The values of the entries not yet handed out, in order.
    pub closed spec fn remaining_vals(&self) -> Seq<V> {
        self.vals@
    }

    /// The next entry in insertion order, or `None` at the end.
    pub fn next(&mut self) -> (r: Option<(String, V)>)
        ensures
            old(self).remaining_keys().len() == 0 || old(self).remaining_vals().len() == 0 ==> r
                is None && final(self).remaining_keys() == old(self).remaining_keys() && final(self).remaining_vals() == old(self).remaining_vals(),
            old(self).remaining_keys().len() > 0 && old(self).remaining_vals().len() > 0 ==> (r
                matches Some(p) && p.0@ == old(self).remaining_keys()[0] && p.1 == old(self).remaining_vals()[0] && final(self).remaining_keys() == old(self).remaining_keys().drop_first() && final(self).remaining_vals() == old(self).remaining_vals().drop_first()),
    {
        if self.keys.len() == 0 || self.vals.len() == 0 {
            None
        } else {
            let k = self.keys.remove(0);
            let v = self.vals.remove(0);
            proof {
                assert(self.remaining_keys() =~= old(self).remaining_keys().drop_first());
                assert(self.remaining_vals() =~= old(self).remaining_vals().drop_first());
            }
            Some((k, v))
        }
    }

    /// Bounds on how many entries are left: exactly the remaining count.
    pub fn size_hint(&self) -> (r: (usize, Option<usize>))
        ensures
            r.0 == self.remaining_keys().len(),
            r.1 == Some(self.remaining_keys().len() as usize),
    {
        (self.keys.len(), Some(self.keys.len()))
    }
}

/// Consumes an [`OrderedDict`], handing out its entries in insertion
/// order.
pub struct IntoIter<V> {
    keys: Vec<String>,
    vals: Vec<V>,
}

impl<V> IntoIter<V> {
    /// The keys of the entries not yet handed out, in order.
    pub closed spec fn remaining_keys(&self) -> Seq<Seq<char>> {
        Seq::new(self.keys@.len(), |i: int| self.keys@[i]@)
    }

    /// The values of the entries not yet handed out, in order.
    pub closed spec fn remaining_vals(&self) -> Seq<V> {
        self.vals@
    }

    /// The next entry in insertion order, or `None` at the end.
    pub fn next(&mut self) -> (r: Option<(String, V)>)
        ensures
            old(self).remaining_keys().len() == 0 || old(self).remaining_vals().len() == 0 ==> r
                is None && final(self).remaining_keys() == old(self).remaining_keys() && final(self).remaining_vals() == old(self).remaining_vals(),
            old(self).remaining_keys().len() > 0 && old(self).remaining_vals().len() > 0 ==> (r
                matches Some(p) && p.0@ == old(self).remaining_keys()[0] && p.1 == old(self).remaining_vals()[0] && final(self).remaining_keys() == old(self).remaining_keys().drop_first() && final(self).remaining_vals() == old(self).remaining_vals().drop_first()),
    {
        if self.keys.len() == 0 || self.vals.len() == 0 {
            None
        } else {
            let k = self.keys.remove(0);
            let v = self.vals.remove(0);
            proof {
                assert(self.remaining_keys() =~= old(self).remaining_keys().drop_first());
                assert(self.remaining_vals() =~= old(self).remaining_vals().drop_first());
            }
            Some((k, v))
        }
    }

    /// Bounds on how many entries are left: exactly the remaining count.
    pub fn size_hint(&self) -> (r: (usize, Option<usize>))
        ensures
            r.0 == self.remaining_keys().len(),
            r.1 == Some(self.remaining_keys().len() as usize),
    {
        (self.keys.len(), Some(self.keys.len()))
    }
}

/// Walks the keys of an [`OrderedDict`] in insertion order.
pub struct Keys<V> {
    underlying: Iter<V>,
}

impl<V> Keys<V> {
    /// The keys not yet handed out, in order.
    pub closed spec fn remaining_keys(&self) -> Seq<Seq<char>> {
        self.underlying.remaining_keys()
    }

    /// The values still paired with those keys.
    pub closed spec fn remaining_vals(&self) -> Seq<V> {
        self.underlying.remaining_vals()
    }

    /// The next key in insertion order, or `None` at the end.
    pub fn next(&mut self) -> (r: Option<String>)
        ensures
            old(self).remaining_keys().len() == 0 || old(self).remaining_vals().len() == 0 ==> r
                is None,
            old(self).remaining_keys().len() > 0 && old(self).remaining_vals().len() > 0 ==> (r
                matches Some(k) && k@ == old(self).remaining_keys()[0] && final(self).remaining_keys() == old(self).remaining_keys().drop_first() && final(self).remaining_vals() == old(self).remaining_vals().drop_first()),
    {
        match self.underlying.next() {
            Some(p) => Some(p.0),
            None => None,
        }
    }

    /// Bounds on how many keys are left: exactly the remaining count.
    pub fn size_hint(&self) -> (r: (usize, Option<usize>))
        ensures
            r.0 == self.remaining_keys().len(),
            r.1 == Some(self.remaining_keys().len() as usize),
    {
        self.underlying.size_hint()
    }
}

/// Walks the values of an [`OrderedDict`] in insertion order.
pub struct Values<V> {
    underlying: Iter<V>,
}

impl<V> Values<V> {
    /// The keys still pairing the values not yet handed out.
    pub closed spec fn remaining_keys(&self) -> Seq<Seq<char>> {
        self.underlying.remaining_keys()
    }

    /// The values not yet handed out, in order.
    pub closed spec fn remaining_vals(&self) -> Seq<V> {
        self.underlying.remaining_vals()
    }

    /// The next value in insertion order, or `None` at the end.
    pub fn next(&mut self) -> (r: Option<V>)
        ensures
            old(self).remaining_keys().len() == 0 || old(self).remaining_vals().len() == 0 ==> r
                is None,
            old(self).remaining_keys().len() > 0 && old(self).remaining_vals().len() > 0 ==> (r
                matches Some(v) && v == old(self).remaining_vals()[0] && final(self).remaining_keys() == old(self).remaining_keys().drop_first() && final(self).remaining_vals() == old(self).remaining_vals().drop_first()),
    {
        match self.underlying.next() {
            Some(p) => Some(p.1),
            None => None,
        }
    }

    /// Bounds on how many values are left: the count of keys still
    /// pairing them.
    pub fn size_hint(&self) -> (r: (usize, Option<usize>))
        ensures
            r.0 == self.remaining_keys().len(),
            r.1 == Some(self.remaining_keys().len() as usize),
    {
        self.underlying.size_hint()
    }
}

/// The entries `(ks, vs)` are the entries `(ks0, vs0)` with some
/// deleted: every surviving key keeps its value and the survivors keep
/// their relative order.
pub open spec fn is_entry_subsequence<V>(
    ks: Seq<Seq<char>>,
    vs: Seq<V>,
    ks0: Seq<Seq<char>>,
    vs0: Seq<V>,
) -> bool
    decreases ks0.len(),
{
    if ks.len() == 0 {
        true
    } else if ks0.len() == 0 {
        false
    } else {
        (ks.last() == ks0.last() && vs.len() > 0 && vs0.len() > 0 && vs.last() == vs0.last()
            && is_entry_subsequence(ks.drop_last(), vs.drop_last(), ks0.drop_last(), vs0.drop_last()))
            || is_entry_subsequence(ks, vs, ks0.drop_last(), vs0.drop_last())
    }
}

/// Picking entries of `(ks0, vs0)` at strictly increasing positions
/// yields an entry subsequence.
proof fn lemma_selection_is_entry_subsequence<V>(
    ks: Seq<Seq<char>>,
    vs: Seq<V>,
    ks0: Seq<Seq<char>>,
    vs0: Seq<V>,
    pos: Seq<int>,
)
    requires
        ks.len() == vs.len(),
        ks0.len() == vs0.len(),
        pos.len() == ks.len(),
        forall|m: int|
            0 <= m < pos.len() ==> 0 <= #[trigger] pos[m] < ks0.len() && ks[m] == ks0[pos[m]]
                && vs[m] == vs0[pos[m]],
        forall|a: int, b: int| 0 <= a < b < pos.len() ==> pos[a] < pos[b],
    ensures
        is_entry_subsequence(ks, vs, ks0, vs0),
    decreases ks0.len(),
{
    if ks.len() > 0 {
        let lastm = ks.len() - 1;
        assert(0 <= pos[lastm] < ks0.len());
        if pos[lastm] == ks0.len() - 1 {
            assert(ks.last() == ks0.last() && vs.last() == vs0.last());
            assert forall|m: int|
                0 <= m < pos.drop_last().len() implies 0 <= #[trigger] pos.drop_last()[m]
                < ks0.drop_last().len() && ks.drop_last()[m] == ks0.drop_last()[pos.drop_last()[m]]
                && vs.drop_last()[m] == vs0.drop_last()[pos.drop_last()[m]] by {
                assert(pos[m] < pos[lastm]);
            }
            lemma_selection_is_entry_subsequence(
                ks.drop_last(),
                vs.drop_last(),
                ks0.drop_last(),
                vs0.drop_last(),
                pos.drop_last(),
            );
        } else {
            assert forall|m: int|
                0 <= m < pos.len() implies 0 <= #[trigger] pos[m] < ks0.drop_last().len() && ks[m]
                == ks0.drop_last()[pos[m]] && vs[m] == vs0.drop_last()[pos[m]] by {
                if m < lastm {
                    assert(pos[m] < pos[lastm]);
                }
            }
            lemma_selection_is_entry_subsequence(ks, vs, ks0.drop_last(), vs0.drop_last(), pos);
        }
    }
}

/// What a run of `retain` with predicate `f` did, relating the old
/// entries (`keys0`, `vals0`) to the new ones (`rkeys`, `rvals`): for
/// each old entry there is a String with that key's characters and a
/// decision that `f` can answer on the pair, and the surviving entries
/// are exactly those whose decision is true, keys still paired with
/// their values, in their old order.
pub open spec fn entries_retained<V, F: Fn(&String, &V) -> bool>(
    f: F,
    keys0: Seq<Seq<char>>,
    vals0: Seq<V>,
    rkeys: Seq<Seq<char>>,
    rvals: Seq<V>,
    ks: Seq<String>,
    d: Seq<bool>,
) -> bool {
    &&& ks.len() == keys0.len()
    &&& d.len() == keys0.len()
    &&& vals0.len() == keys0.len()
    &&& forall|i: int| 0 <= i < ks.len() ==> (#[trigger] ks[i])@ == keys0[i]
    &&& forall|i: int| 0 <= i < d.len() ==> call_ensures(f, (&ks[i], &vals0[i]), #[trigger] d[i])
    &&& rkeys == filter_by(keys0, d)
    &&& rvals == filter_by(vals0, d)
}

/// A map from string keys to values that remembers insertion order.
#[derive(Debug)]
pub struct OrderedDict<V> {
    order: OrderLinkMap,
    vals: Vec<V>,
}

impl<V> OrderedDict<V> {
    /// The distinct keys, in the order they were first inserted.
    pub closed spec fn key_seq(&self) -> Seq<Seq<char>> {
        self.order@
    }

    /// The values, aligned with `key_seq`.
    pub closed spec fn val_seq(&self) -> Seq<V> {
        self.vals@
    }

    /// The keys are distinct and every key has exactly one value.
    pub closed spec fn wf(&self) -> bool {
        self.order.wf() && self.key_seq().len() == self.val_seq().len()
    }

    /// `k` is a key of the dictionary.
    pub open spec fn spec_contains_key(&self, k: Seq<char>) -> bool {
        contains_key_seq(self.key_seq(), k)
    }

    /// A well-formed dictionary pairs every key with exactly one value,
    /// and its keys are pairwise distinct.
    pub proof fn lemma_wf_shape(&self)
        requires
            self.wf(),
        ensures
            self.key_seq().len() == self.val_seq().len(),
            forall|i: int, j: int|
                0 <= i < j < self.key_seq().len() ==> self.key_seq()[i] != self.key_seq()[j],
    {
    }

    /// Creates an empty dictionary.
    pub fn new() -> (d: OrderedDict<V>)
        ensures
            d.wf(),
            d.key_seq().len() == 0,
    {
        OrderedDict { order: OrderLinkMap::new(), vals: Vec::new() }
    }

    /// Maps `k` to `v`.  A fresh key goes to the end of the order with
    /// its value; a known key keeps its place and only its value is
    /// replaced, the old value being returned.
    pub fn insert(&mut self, k: String, v: V) -> (r: Option<V>)
        requires
            old(self).wf(),
        ensures
            final(self).wf(),
            !old(self).spec_contains_key(k@) ==> r is None && final(self).key_seq() == old(self).key_seq().push(k@) && final(self).val_seq() == old(self).val_seq().push(v),
            old(self).spec_contains_key(k@) ==> {
                let i = index_of_key(old(self).key_seq(), k@);
                &&& r == Some(old(self).val_seq()[i])
                &&& final(self).key_seq() == old(self).key_seq()
                &&& final(self).val_seq() == old(self).val_seq().update(i, v)
            },
    {
        match self.order.position_of(&k) {
            Some(i) => {
                proof {
                    assert(old(self).key_seq()[i as int] == k@);
                    assert(index_of_key(old(self).key_seq(), k@) == i);
                }
                let old_val = self.vals.remove(i);
                self.vals.insert(i, v);
                proof {
                    assert(self.val_seq() =~= old(self).val_seq().update(i as int, v));
                }
                Some(old_val)
            },
            None => {
                self.order.insert(k);
                self.vals.push(v);
                None
            },
        }
    }

    /// The value mapped to `k`, if any.
    pub fn get(&self, k: &String) -> (r: Option<&V>)
        requires
            self.wf(),
        ensures
            r is Some <==> self.spec_contains_key(k@),
            r matches Some(v) ==> *v == self.val_seq()[index_of_key(self.key_seq(), k@)],
    {
        match self.order.position_of(k) {
            Some(i) => {
                proof {
                    assert(self.key_seq()[i as int] == k@);
                    assert(index_of_key(self.key_seq(), k@) == i);
                }
                Some(&self.vals[i])
            },
            None => None,
        }
    }

    /// Drops the entry of `k`, returning its value, or `None` if `k`
    /// was no key.  The order of the other entries is kept.
    pub fn remove(&mut self, k: &String) -> (r: Option<V>)
        requires
            old(self).wf(),
        ensures
            final(self).wf(),
            r is Some <==> old(self).spec_contains_key(k@),
            r is None ==> final(self).key_seq() == old(self).key_seq() && final(self).val_seq()
                == old(self).val_seq(),
            old(self).spec_contains_key(k@) ==> {
                let i = index_of_key(old(self).key_seq(), k@);
                &&& r == Some(old(self).val_seq()[i])
                &&& final(self).key_seq() == old(self).key_seq().remove(i)
                &&& final(self).val_seq() == old(self).val_seq().remove(i)
            },
    {
        match self.order.position_of(k) {
            Some(i) => {
                proof {
                    assert(old(self).key_seq()[i as int] == k@);
                    assert(index_of_key(old(self).key_seq(), k@) == i);
                }
                self.order.remove(k);
                let v = self.vals.remove(i);
                Some(v)
            },
            None => {
                None
            },
        }
    }

    /// The number of entries.
    pub fn len(&self) -> (n: usize)
        requires
            self.wf(),
        ensures
            n == self.key_seq().len(),
    {
        self.order.len()
    }

    /// The dictionary holds no entry.
    pub fn is_empty(&self) -> (r: bool)
        requires
            self.wf(),
        ensures
            r == (self.key_seq().len() == 0),
    {
        self.len() == 0
    }

    /// Drops every entry.
    pub fn clear(&mut self)
        ensures
            final(self).wf(),
            final(self).key_seq().len() == 0,
    {
        self.order.clear();
        self.vals.clear();
    }

    /// `k` is a key of the dictionary.
    pub fn contains_key(&self, k: &String) -> (r: bool)
        requires
            self.wf(),
        ensures
            r == self.spec_contains_key(k@),
    {
        match self.order.position_of(k) {
            Some(_) => true,
            None => false,
        }
    }

    /// A mutable borrow of the value mapped to `k`, if any: the caller
    /// may rewrite that one value, and nothing else, through it.
    pub fn get_mut(&mut self, k: &String) -> (r: Option<&mut V>)
        requires
            old(self).wf(),
        ensures
            final(self).wf(),
            r is Some <==> old(self).spec_contains_key(k@),
            r is None ==> final(self).key_seq() == old(self).key_seq() && final(self).val_seq()
                == old(self).val_seq(),
            r matches Some(v) ==> {
                let i = index_of_key(old(self).key_seq(), k@);
                &&& *v == old(self).val_seq()[i]
                &&& final(self).key_seq() == old(self).key_seq()
                &&& final(self).val_seq() == old(self).val_seq().update(i, *final(v))
            },
    {
        match self.order.position_of(k) {
            Some(i) => {
                proof {
                    assert(old(self).key_seq()[i as int] == k@);
                    assert(index_of_key(old(self).key_seq(), k@) == i);
                }
                Some(vstd::std_specs::vec::vec_index_mut(&mut self.vals, i))
            },
            None => None,
        }
    }

    /// Mutable access to the whole value column, aligned with
    /// `key_seq`: the walk over mutable values that an iterator cannot
    /// offer here.  The keys cannot be reached through it, and the
    /// dictionary stays well formed as long as the caller leaves the
    /// column's length alone.
    pub fn values_mut(&mut self) -> (r: &mut Vec<V>)
        ensures
            (*r)@ == old(self).val_seq(),
            final(self).val_seq() == (*final(r))@,
            final(self).key_seq() == old(self).key_seq(),
            (*final(r))@.len() == old(self).val_seq().len() && old(self).wf() ==> final(self).wf(),
    {
        &mut self.vals
    }

    /// The entries for mutation in insertion order: a copy of the keys,
    /// aligned with mutable access to the values.
    pub fn iter_mut(&mut self) -> (r: (Vec<String>, &mut Vec<V>))
        requires
            old(self).wf(),
        ensures
            r.0@.len() == old(self).key_seq().len(),
            forall|i: int| 0 <= i < r.0@.len() ==> #[trigger] r.0@[i]@ == old(self).key_seq()[i],
            (*r.1)@ == old(self).val_seq(),
            final(self).val_seq() == (*final(r.1))@,
            final(self).key_seq() == old(self).key_seq(),
            (*final(r.1))@.len() == old(self).val_seq().len() ==> final(self).wf(),
    {
        let keys = self.order.to_vec();
        (keys, &mut self.vals)
    }

    /// Makes room for `additional` more entries.
    pub fn reserve(&mut self, additional: usize)
        ensures
            final(self).key_seq() == old(self).key_seq(),
            final(self).val_seq() == old(self).val_seq(),
            final(self).wf() == old(self).wf(),
    {
        self.order.reserve(additional);
        self.vals.reserve(additional);
    }

    /// A read-only view of the insertion-order record of the keys.
    pub fn order_link_map(&self) -> (r: &OrderLinkMap)
        ensures
            r@ == self.key_seq(),
    {
        &self.order
    }

    /// Keeps, in their old order, exactly the entries `f` accepted,
    /// and drops exactly those it rejected; some decision of `f` on
    /// each old entry witnesses the split.  The survivors are an entry
    /// subsequence of the old entries, each key still paired with its
    /// value.
    pub fn retain<F: Fn(&String, &V) -> bool>(&mut self, f: F)
        requires
            old(self).wf(),
            forall|k: &String, v: &V| #[trigger] call_requires(f, (k, v)),
        ensures
            final(self).wf(),
            is_entry_subsequence(
                final(self).key_seq(),
                final(self).val_seq(),
                old(self).key_seq(),
                old(self).val_seq(),
            ),
            exists|ks: Seq<String>, d: Seq<bool>|
                entries_retained(
                    f,
                    old(self).key_seq(),
                    old(self).val_seq(),
                    final(self).key_seq(),
                    final(self).val_seq(),
                    ks,
                    d,
                ),
    {
        let ghost keys0 = self.key_seq();
        let ghost vals0 = self.val_seq();
        let snapshot = self.order.to_vec();
        let n = snapshot.len();
        let mut new_order = OrderLinkMap::new();
        let mut kept_vals: Vec<V> = Vec::new();
        let ghost mut decisions: Seq<bool> = Seq::empty();
        let ghost mut positions: Seq<int> = Seq::empty();
        let mut j: usize = 0;
        while j < n
            invariant
                n == keys0.len(),
                keys0.len() == vals0.len(),
                n == snapshot@.len(),
                forall|m: int| 0 <= m < n ==> (#[trigger] snapshot@[m])@ == keys0[m],
                keys_distinct(keys0),
                forall|k: &String, v: &V| #[trigger] call_requires(f, (k, v)),
                j <= n,
                self.key_seq() == keys0,
                self.val_seq() == vals0.subrange(j as int, n as int),
                decisions.len() == j,
                forall|m: int|
                    0 <= m < j ==> call_ensures(
                        f,
                        (&snapshot@[m], &vals0[m]),
                        #[trigger] decisions[m],
                    ),
                new_order.wf(),
                new_order@ == filter_by(keys0.subrange(0, j as int), decisions),
                kept_vals@ == filter_by(vals0.subrange(0, j as int), decisions),
                positions.len() == new_order@.len(),
                kept_vals@.len() == new_order@.len(),
                forall|m: int|
                    0 <= m < positions.len() ==> 0 <= #[trigger] positions[m] < j && new_order@[m]
                        == keys0[positions[m]] && kept_vals@[m] == vals0[positions[m]],
                forall|a: int, b: int| 0 <= a < b < positions.len() ==> positions[a] < positions[b],
            decreases n - j,
        {
            let v = self.vals.remove(0);
            let key = &snapshot[j];
            let keep = f(key, &v);
            proof {
                assert(self.val_seq() =~= vals0.subrange(j as int + 1, n as int));
                assert(v == vals0[j as int]);
                assert(*key == snapshot@[j as int]);
                assert(call_ensures(f, (&snapshot@[j as int], &vals0[j as int]), keep));
                assert(keys0.subrange(0, j as int + 1) =~= keys0.subrange(0, j as int).push(
                    keys0[j as int],
                ));
                assert(vals0.subrange(0, j as int + 1) =~= vals0.subrange(0, j as int).push(
                    vals0[j as int],
                ));
                lemma_filter_by_push(keys0.subrange(0, j as int), decisions, keys0[j as int], keep);
                lemma_filter_by_push(vals0.subrange(0, j as int), decisions, vals0[j as int], keep);
                decisions = decisions.push(keep);
            }
            if keep {
                proof {
                    if contains_key_seq(new_order@, keys0[j as int]) {
                        let m = choose|m: int|
                            0 <= m < new_order@.len() && new_order@[m] == keys0[j as int];
                        assert(new_order@[m] == keys0[positions[m]]);
                        assert(false);
                    }
                }
                new_order.insert(key.clone());
                kept_vals.push(v);
                proof {
                    positions = positions.push(j as int);
                }
            }
            j = j + 1;
        }
        self.order = new_order;
        self.vals = kept_vals;
        proof {
            assert(keys0.subrange(0, n as int) =~= keys0);
            assert(vals0.subrange(0, n as int) =~= vals0);
            assert(self.key_seq() == filter_by(keys0, decisions));
            assert(self.val_seq() == filter_by(vals0, decisions));
            lemma_selection_is_entry_subsequence(
                self.key_seq(),
                self.val_seq(),
                keys0,
                vals0,
                positions,
            );
            assert forall|m: int| 0 <= m < snapshot@.len() implies (#[trigger] snapshot@[m])@
                == keys0[m] by {
            }
            assert(entries_retained(
                f,
                keys0,
                vals0,
                self.key_seq(),
                self.val_seq(),
                snapshot@,
                decisions,
            ));
        }
    }
}

impl<V> Default for OrderedDict<V> {
    /// The empty dictionary.
    fn default() -> (d: Self)
        ensures
            d.wf(),
            d.key_seq().len() == 0,
    {
        OrderedDict::new()
    }
}

impl<V: Clone> OrderedDict<V> {
    /// Starts a walk over copies of the entries in insertion order.
    /// The keys are exactly the dictionary's keys; each value is a
    /// clone of the stored one.
    pub fn iter(&self) -> (r: Iter<V>)
        requires
            self.wf(),
        ensures
            r.remaining_keys() == self.key_seq(),
            r.remaining_vals().len() == self.val_seq().len(),
            forall|i: int|
                0 <= i < self.val_seq().len() ==> cloned(
                    self.val_seq()[i],
                    #[trigger] r.remaining_vals()[i],
                ),
    {
        let keys = self.order.to_vec();
        let vals = self.vals.clone();
        proof {
            assert(Seq::new(keys@.len(), |i: int| keys@[i]@) =~= self.key_seq());
        }
        Iter { keys, vals }
    }

    /// Starts a walk over copies of the keys in insertion order.
    pub fn keys(&self) -> (r: Keys<V>)
        requires
            self.wf(),
        ensures
            r.remaining_keys() == self.key_seq(),
            r.remaining_vals().len() == self.val_seq().len(),
    {
        Keys { underlying: self.iter() }
    }

    /// Starts a walk over copies of the values in insertion order.
    pub fn values(&self) -> (r: Values<V>)
        requires
            self.wf(),
        ensures
            r.remaining_keys() == self.key_seq(),
            r.remaining_vals().len() == self.val_seq().len(),
            forall|i: int|
                0 <= i < self.val_seq().len() ==> cloned(
                    self.val_seq()[i],
                    #[trigger] r.remaining_vals()[i],
                ),
    {
        Values { underlying: self.iter() }
    }
}

impl<V> OrderedDict<V> {
    /// Turns the dictionary into a walk over its entries in insertion
    /// order, handing the stored values out by value.
    pub fn into_iter(self) -> (r: IntoIter<V>)
        requires
            self.wf(),
        ensures
            r.remaining_keys() == self.key_seq(),
            r.remaining_vals() == self.val_seq(),
    {
        let keys = self.order.to_vec();
        proof {
            assert(Seq::new(keys@.len(), |i: int| keys@[i]@) =~= self.key_seq());
        }
        IntoIter { keys, vals: self.vals }
    }
}

} // verus!
