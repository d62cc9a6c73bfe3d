//! A zero-one knapsack solver.
//!
//! [`best_knapsack`] picks, out of a list of weighted and valued items,
//! a subset of maximal total value whose total weight fits the given
//! capacity.  The specification names that maximal value directly:
//! [`best_value`] is the textbook recurrence over the item list, and
//! the solver's result is proved to reach it with a consistent weight,
//! remaining capacity and item list.
//!
//! [`vector_same_set`] compares two vectors as multisets (same entries,
//! order ignored); it underlies the equality of [`KnapsackSolution`],
//! whose item lists count as equal in any order.

use vstd::prelude::*;

verus! {

use vstd::multiset::Multiset;
use vstd::std_specs::cmp::PartialEqSpec;

broadcast use
    vstd::multiset::group_multiset_axioms,
    vstd::seq_lib::group_to_multiset_ensures,
;

/// One option to keep in the knapsack.
#[derive(Debug, Clone, Copy, Eq)]
pub struct Item {
    /// weight of the item, which limits what can be stored in the knapsack.
    pub item_weight: u32,
    /// value of the item, which decides our preference.
    pub item_value: u32,
}

impl PartialEq for Item {
    fn eq(&self, other: &Item) -> (r: bool) {
        self.item_weight == other.item_weight && self.item_value == other.item_value
    }
}

impl vstd::std_specs::cmp::PartialEqSpecImpl for Item {
    open spec fn obeys_eq_spec() -> bool {
        true
    }

    open spec fn eq_spec(&self, other: &Item) -> bool {
        *self == *other
    }
}

/// The initial problem: a capacity and the available items.
#[derive(Debug, Clone)]
pub struct KnapsackProblem {
    /// capacity of the knapsack -- how much the sum of item weights can reach.
    pub kp_capacity: u32,
    /// the list of items that we have available for carrying.
    pub kp_options: Vec<Item>,
}

/// A filling of the knapsack.
#[derive(Debug)]
pub struct KnapsackSolution {
    /// total weight of the chosen items.
    pub ks_weight: u32,
    /// the capacity that remains after carrying the chosen items.
    pub ks_capacity: u32,
    /// total value of the chosen items.
    pub ks_value: u32,
    /// the chosen items.
    pub ks_items: Vec<Item>,
}

/// The sum of the weights of `items`.
pub open spec fn sum_weights(items: Seq<Item>) -> int
    decreases items.len(),
{
    if items.len() == 0 {
        0
    } else {
        sum_weights(items.drop_last()) + items.last().item_weight
    }
}

/// The sum of the values of `items`.
pub open spec fn sum_values(items: Seq<Item>) -> int
    decreases items.len(),
{
    if items.len() == 0 {
        0
    } else {
        sum_values(items.drop_last()) + items.last().item_value
    }
}

/// The best total value reachable by choosing among `options` a subset
/// whose weights sum to at most `capacity` (the knapsack recurrence).
pub open spec fn best_value(options: Seq<Item>, capacity: int) -> int
    decreases options.len(),
{
    if options.len() == 0 {
        0
    } else {
        let item = options.last();
        let rest = options.drop_last();
        let without = best_value(rest, capacity);
        if capacity < item.item_weight {
            without
        } else {
            let with = best_value(rest, capacity - item.item_weight) + item.item_value;
            if with > without {
                with
            } else {
                without
            }
        }
    }
}

/// The items the recurrence chooses: walking the options from the
/// last one backwards, an item is taken exactly when it fits the
/// remaining capacity and taking it strictly beats leaving it.  This
/// names one specific optimal filling, so the solver's whole result is
/// a function of its input.
pub open spec fn best_items(options: Seq<Item>, capacity: int) -> Seq<Item>
    decreases options.len(),
{
    if options.len() == 0 {
        Seq::empty()
    } else {
        let item = options.last();
        let rest = options.drop_last();
        if capacity < item.item_weight {
            best_items(rest, capacity)
        } else if best_value(rest, capacity - item.item_weight) + item.item_value > best_value(
            rest,
            capacity,
        ) {
            best_items(rest, capacity - item.item_weight).push(item)
        } else {
            best_items(rest, capacity)
        }
    }
}

/// `xs` can be obtained from `ys` by deleting items (order kept).
pub open spec fn is_subsequence(xs: Seq<Item>, ys: Seq<Item>) -> bool
    decreases ys.len(),
{
    if xs.len() == 0 {
        true
    } else if ys.len() == 0 {
        false
    } else {
        (xs.last() == ys.last() && is_subsequence(xs.drop_last(), ys.drop_last()))
            || is_subsequence(xs, ys.drop_last())
    }
}

/// Weight and value sums are never negative.
proof fn lemma_sums_nonneg(xs: Seq<Item>)
    ensures
        sum_weights(xs) >= 0,
        sum_values(xs) >= 0,
    decreases xs.len(),
{
    if xs.len() > 0 {
        lemma_sums_nonneg(xs.drop_last());
    }
}

/// A subsequence weighs no more, and is worth no more, than the whole.
proof fn lemma_subsequence_sums(xs: Seq<Item>, ys: Seq<Item>)
    requires
        is_subsequence(xs, ys),
    ensures
        sum_weights(xs) <= sum_weights(ys),
        sum_values(xs) <= sum_values(ys),
    decreases ys.len(),
{
    if xs.len() == 0 {
        lemma_sums_nonneg(ys);
    } else {
        if xs.last() == ys.last() && is_subsequence(xs.drop_last(), ys.drop_last()) {
            lemma_subsequence_sums(xs.drop_last(), ys.drop_last());
        } else {
            lemma_subsequence_sums(xs, ys.drop_last());
        }
    }
}

/// Returns an optimal filling of the knapsack: the chosen items are
/// exactly `best_items` -- the filling named by the recurrence, which
/// takes an item only when that strictly raises the value, so a
/// worthless or oversized item is never taken and equal inputs give
/// equal solutions.  They are a subsequence of the options, their
/// weight fits the capacity, and their total value is exactly
/// `best_value`, the optimum of the recurrence.  The requirement that
/// all values sum below `u32::MAX` keeps the running totals inside
/// machine range.
pub fn best_knapsack(problem: KnapsackProblem) -> (sol: KnapsackSolution)
    requires
        sum_values(problem.kp_options@) <= u32::MAX,
    ensures
        sol.ks_items@ == best_items(problem.kp_options@, problem.kp_capacity as int),
        sol.ks_value == best_value(problem.kp_options@, problem.kp_capacity as int),
        sol.ks_value == sum_values(sol.ks_items@),
        sol.ks_weight == sum_weights(sol.ks_items@),
        sol.ks_weight <= problem.kp_capacity,
        sol.ks_capacity == problem.kp_capacity - sol.ks_weight,
        is_subsequence(sol.ks_items@, problem.kp_options@),
    decreases problem.kp_options@.len(),
{
    let mut problem = problem;
    let ghost options0 = problem.kp_options@;
    if problem.kp_options.len() == 0 {
        proof {
            assert(options0 =~= Seq::<Item>::empty());
        }
        return KnapsackSolution {
            ks_weight: 0,
            ks_value: 0,
            ks_capacity: problem.kp_capacity,
            ks_items: problem.kp_options,
        };
    }
    let test_item = match problem.kp_options.pop() {
        Some(item) => item,
        None => unreached(),
    };
    let other_items = problem.kp_options.clone();
    let cur_capacity = problem.kp_capacity;
    proof {
        assert(options0 == problem.kp_options@.push(test_item));
        assert(options0.drop_last() == problem.kp_options@);
        assert(options0.last() == test_item);
        assert(other_items@ == problem.kp_options@);
        lemma_sums_nonneg(problem.kp_options@);
    }
    let ghost rest = problem.kp_options@;

    let without_item = best_knapsack(problem);

    if cur_capacity < test_item.item_weight {
        without_item
    } else {
        let mut with_item = best_knapsack(
            KnapsackProblem {
                kp_capacity: cur_capacity - test_item.item_weight,
                kp_options: other_items,
            },
        );
        proof {
            lemma_subsequence_sums(with_item.ks_items@, rest);
            lemma_sums_nonneg(with_item.ks_items@);
        }
        if with_item.ks_value + test_item.item_value > without_item.ks_value {
            let ghost items_before = with_item.ks_items@;
            with_item.ks_weight = with_item.ks_weight + test_item.item_weight;
            with_item.ks_value = with_item.ks_value + test_item.item_value;
            with_item.ks_items.push(test_item);
            proof {
                assert(with_item.ks_items@.drop_last() =~= items_before);
                assert(with_item.ks_items@.last() == test_item);
                assert(is_subsequence(with_item.ks_items@, options0));
            }
            with_item
        } else {
            without_item
        }
    }
}

/// Whether the first `k` marks are still clear.
spec fn all_clear(marks: Seq<bool>, k: int) -> bool {
    forall|m: int| 0 <= m < k ==> !marks[m]
}

/// The multiset of the first `k` entries of `right` whose mark is clear.
spec fn unmarked_upto<T>(right: Seq<T>, marks: Seq<bool>, k: int) -> Multiset<T>
    decreases k,
{
    if k <= 0 {
        Multiset::empty()
    } else {
        let m = unmarked_upto(right, marks, k - 1);
        if marks[k - 1] {
            m
        } else {
            m.insert(right[k - 1])
        }
    }
}

/// With every mark clear, the unmarked entries are just the prefix.
proof fn lemma_unmarked_all_clear<T>(right: Seq<T>, marks: Seq<bool>, k: int)
    requires
        0 <= k <= right.len(),
        all_clear(marks, k),
    ensures
        unmarked_upto(right, marks, k) == right.subrange(0, k).to_multiset(),
    decreases k,
{
    if k == 0 {
        assert(right.subrange(0, 0) =~= Seq::<T>::empty());
    } else {
        lemma_unmarked_all_clear(right, marks, k - 1);
        assert(right.subrange(0, k) =~= right.subrange(0, k - 1).push(right[k - 1]));
    }
}

/// A clear mark within the prefix contributes its entry at least once.
proof fn lemma_unmarked_present<T>(right: Seq<T>, marks: Seq<bool>, j: int, k: int)
    requires
        0 <= j < k,
        !marks[j],
    ensures
        unmarked_upto(right, marks, k).count(right[j]) >= 1,
    decreases k,
{
    if j < k - 1 {
        lemma_unmarked_present(right, marks, j, k - 1);
    }
}

/// Setting the mark of an unmarked entry removes exactly that entry.
proof fn lemma_unmarked_mark<T>(right: Seq<T>, marks: Seq<bool>, j: int, k: int)
    requires
        0 <= j < marks.len(),
        !marks[j],
        k <= marks.len(),
    ensures
        unmarked_upto(right, marks.update(j, true), k) == if j < k {
            unmarked_upto(right, marks, k).remove(right[j])
        } else {
            unmarked_upto(right, marks, k)
        },
    decreases k,
{
    if k > 0 {
        lemma_unmarked_mark(right, marks, j, k - 1);
        if j == k - 1 {
            lemma_unmarked_present(right, marks, j, k);
            assert(unmarked_upto(right, marks, k - 1).insert(right[j]).remove(right[j])
                =~= unmarked_upto(right, marks, k - 1));
        } else {
            if j < k - 1 && !marks[k - 1] {
                lemma_unmarked_present(right, marks, j, k - 1);
                assert(unmarked_upto(right, marks, k - 1).remove(right[j]).insert(right[k - 1])
                    =~= unmarked_upto(right, marks, k - 1).insert(right[k - 1]).remove(right[j]));
            }
        }
    }
}

/// An entry matched nowhere among the clear marks is absent from them.
proof fn lemma_unmarked_absent<T>(right: Seq<T>, marks: Seq<bool>, k: int, x: T)
    requires
        k <= right.len(),
        forall|m: int| 0 <= m < k ==> marks[m] || right[m] != x,
    ensures
        unmarked_upto(right, marks, k).count(x) == 0,
    decreases k,
{
    if k > 0 {
        lemma_unmarked_absent(right, marks, k - 1, x);
    }
}

/// Compares the contents of two vectors while ignoring their order:
/// true exactly when they hold the same entries with the same
/// multiplicities.  Each entry of `right` may witness only one entry of
/// `left`, which a marker records.
fn vector_same_set<T: PartialEq + vstd::std_specs::cmp::PartialEqSpec>(
    left: &Vec<T>,
    right: &Vec<T>,
) -> (r: bool)
    requires
        T::obeys_eq_spec(),
        forall|x: T, y: T| #[trigger] x.eq_spec(&y) <==> x == y,
    ensures
        r == (left@.to_multiset() == right@.to_multiset()),
{
    if left.len() != right.len() {
        proof {
            assert(left@.to_multiset().len() != right@.to_multiset().len());
        }
        return false;
    }
    let n = right.len();
    let mut marker: Vec<bool> = Vec::new();
    let mut f: usize = 0;
    while f < n
        invariant
            f <= n,
            marker@.len() == f,
            all_clear(marker@, f as int),
        decreases n - f,
    {
        marker.push(false);
        f = f + 1;
    }
    proof {
        lemma_unmarked_all_clear(right@, marker@, n as int);
        assert(right@.subrange(0, n as int) =~= right@);
    }

    let mut i: usize = 0;
    while i < left.len()
        invariant
            left@.len() == n,
            right@.len() == n,
            marker@.len() == n,
            i <= n,
            T::obeys_eq_spec(),
            forall|x: T, y: T| #[trigger] x.eq_spec(&y) <==> x == y,
            right@.to_multiset() == left@.subrange(0, i as int).to_multiset().add(
                unmarked_upto(right@, marker@, n as int),
            ),
        decreases n - i,
    {
        let mut found_item = false;
        let mut index: usize = 0;
        while index < n
            invariant_except_break
                !found_item,
            invariant
                left@.len() == n,
                right@.len() == n,
                marker@.len() == n,
                i < n,
                index <= n,
                T::obeys_eq_spec(),
                forall|x: T, y: T| #[trigger] x.eq_spec(&y) <==> x == y,
                forall|m: int| 0 <= m < index ==> marker@[m] || right@[m] != left@[i as int],
            ensures
                marker@.len() == n,
                if found_item {
                    index < n && !marker@[index as int] && right@[index as int] == left@[i as int]
                } else {
                    forall|m: int| 0 <= m < n ==> marker@[m] || right@[m] != left@[i as int]
                },
            decreases n - index,
        {
            if right[index].eq(&left[i]) && !marker[index] {
                found_item = true;
                break ;
            }
            index = index + 1;
        }

        if !found_item {
            proof {
                lemma_unmarked_absent(right@, marker@, n as int, left@[i as int]);
                assert(right@.to_multiset().count(left@[i as int]) == left@.subrange(
                    0,
                    i as int,
                ).to_multiset().count(left@[i as int]));
                assert(left@ =~= left@.subrange(0, i as int + 1) + left@.subrange(
                    i as int + 1,
                    n as int,
                ));
                vstd::seq_lib::lemma_multiset_commutative(
                    left@.subrange(0, i as int + 1),
                    left@.subrange(i as int + 1, n as int),
                );
                assert(left@.subrange(0, i as int + 1) =~= left@.subrange(0, i as int).push(
                    left@[i as int],
                ));
                assert(left@.to_multiset().count(left@[i as int]) > left@.subrange(
                    0,
                    i as int,
                ).to_multiset().count(left@[i as int]));
            }
            return false;
        }

        proof {
            lemma_unmarked_mark(right@, marker@, index as int, n as int);
            lemma_unmarked_present(right@, marker@, index as int, n as int);
            assert(left@.subrange(0, i as int + 1) =~= left@.subrange(0, i as int).push(
                left@[i as int],
            ));
            assert(left@.subrange(0, i as int + 1).to_multiset().add(
                unmarked_upto(right@, marker@, n as int).remove(right@[index as int]),
            ) =~= left@.subrange(0, i as int).to_multiset().add(
                unmarked_upto(right@, marker@, n as int),
            ));
        }
        *vstd::std_specs::vec::vec_index_mut(&mut marker, index) = true;
        i = i + 1;
    }
    proof {
        assert(left@.subrange(0, n as int) =~= left@);
        let un = unmarked_upto(right@, marker@, n as int);
        assert(right@.to_multiset().len() == left@.to_multiset().len() + un.len());
        assert(un.len() == 0);
        vstd::multiset::lemma_multiset_empty_len(un);
        assert(left@.to_multiset().add(un) =~= left@.to_multiset());
    }
    true
}

impl PartialEq for KnapsackSolution {
    /// Two solutions are equal when weight, remaining capacity and value
    /// agree and the item lists hold the same items in any order.
    fn eq(&self, other: &Self) -> (r: bool) {
        let attributes_same = self.ks_weight == other.ks_weight && self.ks_capacity
            == other.ks_capacity && self.ks_value == other.ks_value;

        vector_same_set(&self.ks_items, &other.ks_items) && attributes_same
    }
}

impl Eq for KnapsackSolution {

}

impl vstd::std_specs::cmp::PartialEqSpecImpl for KnapsackSolution {
    open spec fn obeys_eq_spec() -> bool {
        true
    }

    open spec fn eq_spec(&self, other: &Self) -> bool {
        &&& self.ks_weight == other.ks_weight
        &&& self.ks_capacity == other.ks_capacity
        &&& self.ks_value == other.ks_value
        &&& self.ks_items@.to_multiset() == other.ks_items@.to_multiset()
    }
}

/// Compares the elements of two vectors, ignoring order; see
/// [`vector_same_set`].  True exactly when the two vectors are equal as
/// multisets.
pub fn vector_same_set_test<T: PartialEq + Clone + vstd::std_specs::cmp::PartialEqSpec>(
    left: &Vec<T>,
    right: &Vec<T>,
) -> (r: bool)
    requires
        T::obeys_eq_spec(),
        forall|x: T, y: T| #[trigger] x.eq_spec(&y) <==> x == y,
    ensures
        r == (left@.to_multiset() == right@.to_multiset()),
{
    vector_same_set(left, right)
}

} // verus!
