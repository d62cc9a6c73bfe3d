//! A disjoint-set (union-find) forest.
//!
//! All elements live in one arena owned by a [`UnionFind`] value; an
//! [`Element`] is an opaque handle into that arena.  Every element is
//! either a root, carrying the rank of its tree, or points at a parent
//! element one step closer to its root.  `find` locates the root of an
//! element's set and rewrites every element it visited to point directly
//! at that root (full path compression); `union` merges two sets,
//! attaching the root of smaller rank under the other (union by rank).
//!
//! The specification models the arena as a sequence of `ElementParent`
//! values.  Well-formedness (`wf`) says that following parent links from
//! any element reaches a root in finitely many steps; `root_of` names
//! that root.  Two elements are in the same set exactly when they have
//! the same root.

use vstd::prelude::*;

verus! {

use vstd::set_lib::lemma_int_range;
use vstd::set_lib::lemma_len_subset;
use vstd::set_lib::set_int_range;

/// Outcome of [`UnionFind::union`]: `NoChange` when both elements were
/// already in the same set, `Updated` when two sets were merged.
#[derive(Clone, Copy, Debug, PartialEq, Eq, Structural)]
pub enum UnionResult {
    NoChange,
    Updated,
}

/// An opaque handle to one element of a [`UnionFind`] arena.
///
/// Two handles denote the same element exactly when they are equal;
/// handles are only meaningful for the `UnionFind` value that created
/// them.  The view of a handle is its position in the arena.
#[derive(Clone, Copy, Debug, PartialEq, Eq, Structural)]
pub struct Element {
    id: usize,
}

impl View for Element {
    type V = int;

    closed spec fn view(&self) -> int {
        self.id as int
    }
}

/// The state of one element: either a root holding the rank of its
/// tree, or a link to the parent element.
#[derive(Clone, Copy, Debug, PartialEq, Eq, Structural)]
pub enum ElementParent {
    UpElement(Element),
    Rank(i32),
}

/// Anything that can hand out the [`Element`] it is tracked by.
pub trait DisjointSet {
    fn get_node(&self) -> Element;
}

impl DisjointSet for Element {
    fn get_node(&self) -> (e: Element)
        ensures
            e == *self,
    {
        *self
    }
}

/// `i` is a position inside the arena `s`.
pub open spec fn valid_idx(s: Seq<ElementParent>, i: int) -> bool {
    0 <= i < s.len()
}

/// Element `i` is the root of its tree.
pub open spec fn is_root(s: Seq<ElementParent>, i: int) -> bool {
    s[i] is Rank
}

/// The position of the parent of (non-root) element `i`.
pub open spec fn parent_idx(s: Seq<ElementParent>, i: int) -> int {
    s[i]->UpElement_0@
}

/// The rank stored at root `i`.
pub open spec fn rank_of(s: Seq<ElementParent>, i: int) -> int {
    s[i]->Rank_0 as int
}

/// Following parent links from `i` reaches a root in at most `fuel` steps.
pub open spec fn rooted(s: Seq<ElementParent>, i: int, fuel: nat) -> bool
    decreases fuel,
{
    valid_idx(s, i) && if is_root(s, i) {
        true
    } else {
        fuel > 0 && rooted(s, parent_idx(s, i), (fuel - 1) as nat)
    }
}

/// Following parent links from `i` terminates at a root.
pub open spec fn has_root(s: Seq<ElementParent>, i: int) -> bool {
    exists|fuel: nat| rooted(s, i, fuel)
}

/// The element reached from `i` after following parent links for at
/// most `fuel` steps.
pub open spec fn root_from(s: Seq<ElementParent>, i: int, fuel: nat) -> int
    decreases fuel,
{
    if valid_idx(s, i) && !is_root(s, i) && fuel > 0 {
        root_from(s, parent_idx(s, i), (fuel - 1) as nat)
    } else {
        i
    }
}

/// The root of the set containing `i` (meaningful when `has_root(s, i)`).
pub open spec fn root_of(s: Seq<ElementParent>, i: int) -> int {
    root_from(s, i, choose|fuel: nat| rooted(s, i, fuel))
}

/// Elements `i` and `j` belong to the same set.
pub open spec fn same_set_spec(s: Seq<ElementParent>, i: int, j: int) -> bool {
    root_of(s, i) == root_of(s, j)
}

/// The arena is a well-formed forest: every element reaches a root,
/// and every rank is non-negative.
pub open spec fn wf(s: Seq<ElementParent>) -> bool {
    forall|i: int|
        valid_idx(s, i) ==> #[trigger] has_root(s, i) && (is_root(s, i) ==> rank_of(s, i) >= 0)
}

/// Element `j` lies on the parent chain starting at `i`, within `fuel` steps.
pub open spec fn reaches(s: Seq<ElementParent>, i: int, j: int, fuel: nat) -> bool
    decreases fuel,
{
    valid_idx(s, i) && (i == j || (!is_root(s, i) && fuel > 0 && reaches(
        s,
        parent_idx(s, i),
        j,
        (fuel - 1) as nat,
    )))
}

/// Element `j` lies on the parent chain starting at `i`.
pub open spec fn on_path(s: Seq<ElementParent>, i: int, j: int) -> bool {
    exists|fuel: nat| reaches(s, i, j, fuel)
}

/// Reaching a root within some fuel still holds for any larger fuel,
/// and the root reached does not depend on the fuel.
proof fn lemma_rooted_mono(s: Seq<ElementParent>, i: int, f1: nat, f2: nat)
    requires
        rooted(s, i, f1),
        f1 <= f2,
    ensures
        rooted(s, i, f2),
        root_from(s, i, f2) == root_from(s, i, f1),
    decreases f1,
{
    if !is_root(s, i) {
        lemma_rooted_mono(s, parent_idx(s, i), (f1 - 1) as nat, (f2 - 1) as nat);
    }
}

/// Any two sufficient fuels agree on the root reached from `i`.
proof fn lemma_root_from_agree(s: Seq<ElementParent>, i: int, f1: nat, f2: nat)
    requires
        rooted(s, i, f1),
        rooted(s, i, f2),
    ensures
        root_from(s, i, f1) == root_from(s, i, f2),
{
    if f1 <= f2 {
        lemma_rooted_mono(s, i, f1, f2);
    } else {
        lemma_rooted_mono(s, i, f2, f1);
    }
}

/// The element reached with sufficient fuel is a valid root, and the
/// chain from `i` reaches it.
proof fn lemma_root_from_props(s: Seq<ElementParent>, i: int, fuel: nat)
    requires
        rooted(s, i, fuel),
    ensures
        valid_idx(s, root_from(s, i, fuel)),
        is_root(s, root_from(s, i, fuel)),
        reaches(s, i, root_from(s, i, fuel), fuel),
    decreases fuel,
{
    if !is_root(s, i) {
        lemma_root_from_props(s, parent_idx(s, i), (fuel - 1) as nat);
    }
}

/// Basic facts about `root_of` for an element that reaches a root:
/// the root is a valid root index, the chain from `i` reaches it, and
/// `root_from` with any sufficient fuel equals it.
pub proof fn lemma_root_of_props(s: Seq<ElementParent>, i: int)
    requires
        has_root(s, i),
    ensures
        valid_idx(s, root_of(s, i)),
        is_root(s, root_of(s, i)),
        on_path(s, i, root_of(s, i)),
        forall|fuel: nat| rooted(s, i, fuel) ==> #[trigger] root_from(s, i, fuel) == root_of(s, i),
{
    let f0 = choose|fuel: nat| rooted(s, i, fuel);
    assert(rooted(s, i, f0));
    lemma_root_from_props(s, i, f0);
    assert forall|fuel: nat| rooted(s, i, fuel) implies #[trigger] root_from(s, i, fuel) == root_of(
        s,
        i,
    ) by {
        lemma_root_from_agree(s, i, fuel, f0);
    }
}

/// A root is its own root.
pub proof fn lemma_root_of_root(s: Seq<ElementParent>, i: int)
    requires
        valid_idx(s, i),
        is_root(s, i),
    ensures
        has_root(s, i),
        root_of(s, i) == i,
{
    assert(rooted(s, i, 0));
    lemma_root_of_props(s, i);
}

/// A non-root element has the same root as its parent.
pub proof fn lemma_root_of_parent(s: Seq<ElementParent>, i: int)
    requires
        valid_idx(s, i),
        !is_root(s, i),
        has_root(s, i),
    ensures
        has_root(s, parent_idx(s, i)),
        root_of(s, i) == root_of(s, parent_idx(s, i)),
{
    let f0 = choose|fuel: nat| rooted(s, i, fuel);
    assert(rooted(s, i, f0));
    assert(rooted(s, parent_idx(s, i), (f0 - 1) as nat));
    lemma_root_of_props(s, i);
    lemma_root_of_props(s, parent_idx(s, i));
    assert(root_from(s, i, f0) == root_from(s, parent_idx(s, i), (f0 - 1) as nat));
}

/// Chaining: if the chain from `i` passes `j` and the chain from `j`
/// reaches a root, then the chain from `i` reaches that same root.
proof fn lemma_reaches_root(s: Seq<ElementParent>, i: int, j: int, f: nat, g: nat)
    requires
        reaches(s, i, j, f),
        rooted(s, j, g),
    ensures
        rooted(s, i, (f + g) as nat),
        root_from(s, i, (f + g) as nat) == root_from(s, j, g),
    decreases f,
{
    if i == j {
        lemma_rooted_mono(s, j, g, (f + g) as nat);
    } else {
        lemma_reaches_root(s, parent_idx(s, i), j, (f - 1) as nat, g);
    }
}

/// An element on the chain from `i` has the same root as `i`.
pub proof fn lemma_on_path_same_root(s: Seq<ElementParent>, i: int, j: int)
    requires
        on_path(s, i, j),
        has_root(s, j),
    ensures
        has_root(s, i),
        root_of(s, i) == root_of(s, j),
{
    let f = choose|f: nat| reaches(s, i, j, f);
    let g = choose|g: nat| rooted(s, j, g);
    assert(reaches(s, i, j, f));
    assert(rooted(s, j, g));
    lemma_reaches_root(s, i, j, f, g);
    lemma_root_of_props(s, i);
    lemma_root_of_props(s, j);
}

/// The chain from `i` passes a root `j` exactly when `j` is `i`'s root.
pub proof fn lemma_on_path_root(s: Seq<ElementParent>, i: int, j: int)
    requires
        valid_idx(s, j),
        is_root(s, j),
        has_root(s, i),
    ensures
        on_path(s, i, j) <==> root_of(s, i) == j,
{
    lemma_root_of_root(s, j);
    if on_path(s, i, j) {
        lemma_on_path_same_root(s, i, j);
    }
    if root_of(s, i) == j {
        lemma_root_of_props(s, i);
    }
}

/// A chain that avoids `x` is unaffected by retargeting `x`.
proof fn lemma_retarget_avoid(
    s: Seq<ElementParent>,
    s2: Seq<ElementParent>,
    x: int,
    i: int,
    f: nat,
)
    requires
        s2.len() == s.len(),
        forall|k: int| valid_idx(s, k) && k != x ==> s2[k] == s[k],
        rooted(s, i, f),
        !on_path(s, i, x),
    ensures
        rooted(s2, i, f),
        root_from(s2, i, f) == root_from(s, i, f),
    decreases f,
{
    assert(reaches(s, i, i, 0));
    assert(i != x);
    if !is_root(s, i) {
        let p = parent_idx(s, i);
        if on_path(s, p, x) {
            let g = choose|g: nat| reaches(s, p, x, g);
            assert(reaches(s, p, x, g));
            assert(reaches(s, i, x, (g + 1) as nat));
            assert(false);
        }
        lemma_retarget_avoid(s, s2, x, p, (f - 1) as nat);
    }
}

/// A chain that passes `x` is redirected: after retargeting `x` at `y`
/// it continues along `y`'s (unchanged) chain.
proof fn lemma_retarget_through(
    s: Seq<ElementParent>,
    s2: Seq<ElementParent>,
    x: int,
    y: int,
    fy: nat,
    i: int,
    f: nat,
)
    requires
        s2.len() == s.len(),
        forall|k: int| valid_idx(s, k) && k != x ==> s2[k] == s[k],
        valid_idx(s, x),
        valid_idx(s, y),
        s2[x] is UpElement,
        parent_idx(s2, x) == y,
        rooted(s, y, fy),
        !on_path(s, y, x),
        rooted(s, i, f) || i == x,
        on_path(s, i, x),
    ensures
        rooted(s2, i, (f + fy + 1) as nat),
        root_from(s2, i, (f + fy + 1) as nat) == root_from(s, y, fy),
    decreases f,
{
    lemma_retarget_avoid(s, s2, x, y, fy);
    if i == x {
        lemma_rooted_mono(s2, y, fy, (f + fy) as nat);
    } else {
        let g = choose|g: nat| reaches(s, i, x, g);
        assert(reaches(s, i, x, g));
        assert(!is_root(s, i) && g > 0 && reaches(s, parent_idx(s, i), x, (g - 1) as nat));
        let p = parent_idx(s, i);
        if rooted(s, i, f) {
            assert(f > 0 && rooted(s, p, (f - 1) as nat));
            lemma_retarget_through(s, s2, x, y, fy, p, (f - 1) as nat);
        } else {
            assert(false);
        }
    }
}

/// Retargeting `x` to point at `y` (where `y`'s chain does not pass
/// `x`, so no cycle arises) keeps the forest well formed.  Elements
/// whose chain passed `x` move to `y`'s set; all others keep their root.
pub proof fn lemma_retarget(s: Seq<ElementParent>, s2: Seq<ElementParent>, x: int, y: int)
    requires
        wf(s),
        valid_idx(s, x),
        valid_idx(s, y),
        !on_path(s, y, x),
        s2.len() == s.len(),
        s2[x] is UpElement,
        parent_idx(s2, x) == y,
        forall|k: int| valid_idx(s, k) && k != x ==> s2[k] == s[k],
    ensures
        wf(s2),
        forall|i: int|
            valid_idx(s, i) ==> #[trigger] root_of(s2, i) == if on_path(s, i, x) {
                root_of(s, y)
            } else {
                root_of(s, i)
            },
{
    assert(has_root(s, y));
    let fy = choose|fuel: nat| rooted(s, y, fuel);
    assert(rooted(s, y, fy));
    lemma_root_of_props(s, y);
    assert forall|i: int| valid_idx(s, i) implies #[trigger] has_root(s2, i) && root_of(s2, i)
        == (if on_path(s, i, x) {
        root_of(s, y)
    } else {
        root_of(s, i)
    }) by {
        assert(has_root(s, i));
        let fi = choose|fuel: nat| rooted(s, i, fuel);
        assert(rooted(s, i, fi));
        if on_path(s, i, x) {
            lemma_retarget_through(s, s2, x, y, fy, i, fi);
            assert(rooted(s2, i, (fi + fy + 1) as nat));
            lemma_root_of_props(s2, i);
        } else {
            lemma_retarget_avoid(s, s2, x, i, fi);
            lemma_root_of_props(s2, i);
            lemma_root_of_props(s, i);
        }
    }
    assert forall|i: int| valid_idx(s, i) implies #[trigger] root_of(s2, i) == (if on_path(
        s,
        i,
        x,
    ) {
        root_of(s, y)
    } else {
        root_of(s, i)
    }) by {
        assert(has_root(s2, i));
    }
    assert forall|i: int| valid_idx(s2, i) implies #[trigger] has_root(s2, i) && (is_root(s2, i)
        ==> rank_of(s2, i) >= 0) by {
        assert(valid_idx(s, i));
        assert(has_root(s, i));
        assert(has_root(s2, i) && root_of(s2, i) == (if on_path(s, i, x) {
            root_of(s, y)
        } else {
            root_of(s, i)
        }));
        if is_root(s2, i) {
            assert(i != x);
            assert(s2[i] == s[i]);
        }
    }
}

/// Appending fresh elements leaves every existing chain unchanged.
proof fn lemma_grow_one(s: Seq<ElementParent>, s2: Seq<ElementParent>, i: int, f: nat)
    requires
        s.len() <= s2.len(),
        forall|k: int| valid_idx(s, k) ==> s2[k] == s[k],
        rooted(s, i, f),
    ensures
        rooted(s2, i, f),
        root_from(s2, i, f) == root_from(s, i, f),
    decreases f,
{
    if !is_root(s, i) {
        lemma_grow_one(s, s2, parent_idx(s, i), (f - 1) as nat);
    }
}

/// Pushing a fresh root onto a well-formed arena keeps it well formed;
/// old elements keep their roots and the new element is its own root.
pub proof fn lemma_push_root(s: Seq<ElementParent>, rank: i32)
    requires
        wf(s),
        rank >= 0,
    ensures
        wf(s.push(ElementParent::Rank(rank))),
        forall|i: int|
            valid_idx(s, i) ==> #[trigger] root_of(s.push(ElementParent::Rank(rank)), i) == root_of(
                s,
                i,
            ),
        root_of(s.push(ElementParent::Rank(rank)), s.len() as int) == s.len() as int,
{
    let s2 = s.push(ElementParent::Rank(rank));
    assert forall|i: int| valid_idx(s, i) implies #[trigger] has_root(s2, i) && root_of(s2, i)
        == root_of(s, i) by {
        assert(has_root(s, i));
        let fi = choose|fuel: nat| rooted(s, i, fuel);
        assert(rooted(s, i, fi));
        lemma_grow_one(s, s2, i, fi);
        lemma_root_of_props(s2, i);
        lemma_root_of_props(s, i);
    }
    assert(is_root(s2, s.len() as int));
    lemma_root_of_root(s2, s.len() as int);
    assert forall|i: int| valid_idx(s, i) implies #[trigger] root_of(s2, i) == root_of(s, i) by {
        assert(has_root(s2, i));
    }
    assert forall|i: int| valid_idx(s2, i) implies #[trigger] has_root(s2, i) && (is_root(s2, i)
        ==> rank_of(s2, i) >= 0) by {
        if i < s.len() {
            assert(has_root(s, i));
            assert(has_root(s2, i) && root_of(s2, i) == root_of(s, i));
            if is_root(s2, i) {
                assert(s2[i] == s[i]);
            }
        } else {
            assert(i == s.len());
            assert(rooted(s2, i, 0));
        }
    }
}

/// Changing only the rank stored at a root changes no chain and no root.
pub proof fn lemma_rerank(s: Seq<ElementParent>, s2: Seq<ElementParent>, x: int)
    requires
        wf(s),
        valid_idx(s, x),
        is_root(s, x),
        s2.len() == s.len(),
        s2[x] is Rank,
        rank_of(s2, x) >= 0,
        forall|k: int| valid_idx(s, k) && k != x ==> s2[k] == s[k],
    ensures
        wf(s2),
        forall|i: int| valid_idx(s, i) ==> #[trigger] root_of(s2, i) == root_of(s, i),
{
    assert forall|i: int| valid_idx(s, i) implies #[trigger] has_root(s2, i) && root_of(s2, i)
        == root_of(s, i) by {
        assert(has_root(s, i));
        let fi = choose|fuel: nat| rooted(s, i, fuel);
        assert(rooted(s, i, fi));
        lemma_rerank_one(s, s2, x, i, fi);
        lemma_root_of_props(s2, i);
        lemma_root_of_props(s, i);
    }
    assert forall|i: int| valid_idx(s, i) implies #[trigger] root_of(s2, i) == root_of(s, i) by {
        assert(has_root(s2, i));
    }
    assert forall|i: int| valid_idx(s2, i) implies #[trigger] has_root(s2, i) && (is_root(s2, i)
        ==> rank_of(s2, i) >= 0) by {
        assert(has_root(s, i));
        assert(has_root(s2, i) && root_of(s2, i) == root_of(s, i));
        if is_root(s2, i) && i != x {
            assert(s2[i] == s[i]);
        }
    }
}

/// Helper for [`lemma_rerank`]: chains are insensitive to rank values.
proof fn lemma_rerank_one(s: Seq<ElementParent>, s2: Seq<ElementParent>, x: int, i: int, f: nat)
    requires
        valid_idx(s, x),
        is_root(s, x),
        s2.len() == s.len(),
        s2[x] is Rank,
        forall|k: int| valid_idx(s, k) && k != x ==> s2[k] == s[k],
        rooted(s, i, f),
    ensures
        rooted(s2, i, f),
        root_from(s2, i, f) == root_from(s, i, f),
    decreases f,
{
    if !is_root(s, i) {
        lemma_rerank_one(s, s2, x, parent_idx(s, i), (f - 1) as nat);
    }
}

/// `j` occurs among the first `k` entries of `p`.
pub open spec fn in_path_upto(p: Seq<Element>, j: int, k: int) -> bool {
    exists|m: int| 0 <= m < k && m < p.len() && p[m]@ == j
}

/// `j` occurs among the entries of `p`.
pub open spec fn in_path(p: Seq<Element>, j: int) -> bool {
    in_path_upto(p, j, p.len() as int)
}

/// The chain from a non-root element passes exactly the element itself
/// and everything on the chain from its parent.
proof fn lemma_on_path_step(s: Seq<ElementParent>, i: int)
    requires
        valid_idx(s, i),
        !is_root(s, i),
    ensures
        forall|j: int| #[trigger]
            on_path(s, i, j) <==> (j == i || on_path(s, parent_idx(s, i), j)),
{
    let p = parent_idx(s, i);
    assert forall|j: int| #[trigger] on_path(s, i, j) implies (j == i || on_path(s, p, j)) by {
        let f = choose|f: nat| reaches(s, i, j, f);
        assert(reaches(s, i, j, f));
        if j != i {
            assert(reaches(s, p, j, (f - 1) as nat));
        }
    }
    assert forall|j: int| (j == i || on_path(s, p, j)) implies #[trigger] on_path(s, i, j) by {
        if j == i {
            assert(reaches(s, i, j, 0));
        } else {
            let g = choose|g: nat| reaches(s, p, j, g);
            assert(reaches(s, p, j, g));
            assert(reaches(s, i, j, (g + 1) as nat));
        }
    }
}

/// The chain from a root passes only the root itself.
proof fn lemma_on_path_of_root(s: Seq<ElementParent>, r: int)
    requires
        valid_idx(s, r),
        is_root(s, r),
    ensures
        forall|j: int| #[trigger] on_path(s, r, j) <==> j == r,
{
    assert forall|j: int| #[trigger] on_path(s, r, j) implies j == r by {
        let f = choose|f: nat| reaches(s, r, j, f);
        assert(reaches(s, r, j, f));
    }
    assert(reaches(s, r, r, 0));
}

/// Extending the scanned prefix of `p` by one adds exactly `p[k]`.
proof fn lemma_in_path_upto_step(p: Seq<Element>, k: int)
    requires
        0 <= k < p.len(),
    ensures
        forall|j: int| #[trigger] in_path_upto(p, j, k + 1) <==> (in_path_upto(p, j, k) || p[k]@
            == j),
{
    assert forall|j: int| #[trigger]
        in_path_upto(p, j, k + 1) implies (in_path_upto(p, j, k) || p[k]@ == j) by {
        let m = choose|m: int| 0 <= m < k + 1 && m < p.len() && p[m]@ == j;
        if m < k {
            assert(0 <= m < k && m < p.len() && p[m]@ == j);
        }
    }
    assert forall|j: int| (in_path_upto(p, j, k) || p[k]@ == j) implies #[trigger] in_path_upto(
        p,
        j,
        k + 1,
    ) by {
        if in_path_upto(p, j, k) {
            let m = choose|m: int| 0 <= m < k && m < p.len() && p[m]@ == j;
            assert(0 <= m < k + 1 && m < p.len() && p[m]@ == j);
        } else {
            assert(0 <= k < k + 1 && k < p.len() && p[k]@ == j);
        }
    }
}

/// Pushing an element onto `p` adds exactly that element's position.
proof fn lemma_in_path_push(p: Seq<Element>, e: Element)
    ensures
        forall|j: int| #[trigger] in_path(p.push(e), j) <==> (in_path(p, j) || e@ == j),
{
    let q = p.push(e);
    assert forall|j: int| #[trigger] in_path(q, j) implies (in_path(p, j) || e@ == j) by {
        let m = choose|m: int| 0 <= m < q.len() && m < q.len() && q[m]@ == j;
        if m < p.len() {
            assert(0 <= m < p.len() && m < p.len() && p[m]@ == j);
        } else {
            assert(q[m] == e);
        }
    }
    assert forall|j: int| (in_path(p, j) || e@ == j) implies #[trigger] in_path(q, j) by {
        if in_path(p, j) {
            let m = choose|m: int| 0 <= m < p.len() && m < p.len() && p[m]@ == j;
            assert(0 <= m < q.len() && m < q.len() && q[m]@ == j);
        } else {
            let m = p.len() as int;
            assert(0 <= m < q.len() && m < q.len() && q[m]@ == j);
        }
    }
}

/// A disjoint-set forest.  It owns the arena of elements; handles into
/// the arena are created by [`UnionFind::new_element`].
pub struct UnionFind {
    nodes: Vec<ElementParent>,
}

impl View for UnionFind {
    type V = Seq<ElementParent>;

    closed spec fn view(&self) -> Seq<ElementParent> {
        self.nodes@
    }
}

impl UnionFind {
    /// Creates an empty forest.
    pub fn new() -> (uf: UnionFind)
        ensures
            uf@.len() == 0,
            wf(uf@),
            rank_bounded(uf@),
    {
        UnionFind { nodes: Vec::new() }
    }

    /// The number of elements in the forest.
    pub fn len(&self) -> (n: usize)
        ensures
            n == self@.len(),
    {
        self.nodes.len()
    }

    /// The current state of an element: its rank if it is a root, or
    /// its parent link.
    pub fn state(&self, element: Element) -> (st: ElementParent)
        requires
            valid_idx(self@, element@),
        ensures
            st == self@[element@],
    {
        self.nodes[element.id]
    }

    /// Creates a fresh element: a singleton set whose root carries
    /// `start_rank`.
    pub fn new_element(&mut self, start_rank: i32) -> (e: Element)
        requires
            wf(old(self)@),
            start_rank >= 0,
        ensures
            final(self)@ == old(self)@.push(ElementParent::Rank(start_rank)),
            wf(final(self)@),
            e@ == old(self)@.len(),
            valid_idx(final(self)@, e@),
            is_root(final(self)@, e@),
            rank_of(final(self)@, e@) == start_rank,
            root_of(final(self)@, e@) == e@,
            forall|i: int|
                valid_idx(old(self)@, i) ==> #[trigger] root_of(final(self)@, i) == root_of(
                    old(self)@,
                    i,
                ),
            rank_bounded(old(self)@) && start_rank == 0 ==> rank_bounded(final(self)@),
    {
        let id = self.nodes.len();
        self.nodes.push(ElementParent::Rank(start_rank));
        proof {
            lemma_push_root(old(self)@, start_rank);
            if rank_bounded(old(self)@) && start_rank == 0 {
                lemma_rank_bounded_push(old(self)@);
            }
        }
        Element { id }
    }
}

impl UnionFind {
    /// Returns the root of the set containing `element` and rewrites
    /// every element visited on the way to point directly at that root
    /// (full path compression).  The partition into sets, and the rank
    /// stored at every root, are unchanged.
    pub fn find(&mut self, element: Element) -> (root: Element)
        requires
            wf(old(self)@),
            valid_idx(old(self)@, element@),
        ensures
            wf(final(self)@),
            final(self)@.len() == old(self)@.len(),
            root@ == root_of(old(self)@, element@),
            valid_idx(final(self)@, root@),
            is_root(final(self)@, root@),
            root_of(final(self)@, element@) == root@,
            forall|i: int|
                valid_idx(old(self)@, i) ==> #[trigger] root_of(final(self)@, i) == root_of(
                    old(self)@,
                    i,
                ),
            forall|i: int|
                valid_idx(old(self)@, i) && is_root(old(self)@, i) ==> final(self)@[i] == old(
                    self,
                )@[i],
            forall|i: int| #![trigger on_path(old(self)@, element@, i)]
                valid_idx(old(self)@, i) && on_path(old(self)@, element@, i) && i != root@
                    ==> final(self)@[i] is UpElement && parent_idx(final(self)@, i) == root@,
            forall|i: int| #![trigger on_path(old(self)@, element@, i)]
                valid_idx(old(self)@, i) && !on_path(old(self)@, element@, i) ==> final(self)@[i]
                    == old(self)@[i],
            rank_bounded(old(self)@) ==> rank_bounded(final(self)@),
    {
        let ghost s0 = self@;
        let mut path: Vec<Element> = Vec::new();
        let mut cur = element;
        proof {
            assert(has_root(s0, element@));
            assert(reaches(s0, element@, element@, 0));
        }
        let ghost mut fuel: nat = choose|f: nat| rooted(s0, element@, f);
        loop
            invariant
                self@ == s0,
                s0 == old(self)@,
                wf(s0),
                valid_idx(s0, element@),
                valid_idx(s0, cur@),
                rooted(s0, cur@, fuel),
                on_path(s0, element@, cur@),
                root_of(s0, cur@) == root_of(s0, element@),
                forall|m: int|
                    0 <= m < path@.len() ==> valid_idx(s0, #[trigger] path@[m]@) && !is_root(
                        s0,
                        path@[m]@,
                    ) && on_path(s0, element@, path@[m]@),
                forall|j: int| #[trigger]
                    on_path(s0, element@, j) <==> (in_path(path@, j) || on_path(s0, cur@, j)),
            ensures
                self@ == s0,
                valid_idx(s0, cur@),
                is_root(s0, cur@),
                on_path(s0, element@, cur@),
                root_of(s0, cur@) == root_of(s0, element@),
                forall|m: int|
                    0 <= m < path@.len() ==> valid_idx(s0, #[trigger] path@[m]@) && !is_root(
                        s0,
                        path@[m]@,
                    ) && on_path(s0, element@, path@[m]@),
                forall|j: int| #[trigger]
                    on_path(s0, element@, j) <==> (in_path(path@, j) || on_path(s0, cur@, j)),
            decreases fuel,
        {
            match self.nodes[cur.id] {
                ElementParent::UpElement(next) => {
                    proof {
                        assert(!is_root(s0, cur@));
                        assert(next@ == parent_idx(s0, cur@));
                        assert(rooted(s0, next@, (fuel - 1) as nat));
                        assert(has_root(s0, cur@));
                        lemma_root_of_parent(s0, cur@);
                        lemma_on_path_step(s0, cur@);
                        lemma_in_path_push(path@, cur);
                        let g = choose|g: nat| reaches(s0, element@, cur@, g);
                        assert(reaches(s0, element@, cur@, g));
                        lemma_reaches_trans_one(s0, element@, cur@, g);
                    }
                    path.push(cur);
                    cur = next;
                    proof {
                        fuel = (fuel - 1) as nat;
                    }
                },
                ElementParent::Rank(_) => {
                    proof {
                        assert(is_root(s0, cur@));
                    }
                    break ;
                },
            }
        }
        let root = cur;
        proof {
            lemma_root_of_root(s0, root@);
            lemma_on_path_of_root(s0, root@);
            assert(root@ == root_of(s0, element@));
            assert forall|m: int| 0 <= m < path@.len() implies root_of(
                s0,
                #[trigger] path@[m]@,
            ) == root@ by {
                assert(has_root(s0, path@[m]@));
                lemma_on_path_same_root(s0, element@, path@[m]@);
                let g = choose|g: nat| reaches(s0, element@, path@[m]@, g);
                assert(reaches(s0, element@, path@[m]@, g));
                assert(has_root(s0, element@));
                lemma_root_of_props(s0, element@);
            }
        }
        let mut k: usize = 0;
        while k < path.len()
            invariant
                s0 == old(self)@,
                wf(s0),
                k <= path@.len(),
                self@.len() == s0.len(),
                wf(self@),
                valid_idx(s0, element@),
                valid_idx(s0, root@),
                is_root(s0, root@),
                root@ == root_of(s0, element@),
                forall|m: int|
                    0 <= m < path@.len() ==> valid_idx(s0, #[trigger] path@[m]@) && !is_root(
                        s0,
                        path@[m]@,
                    ) && root_of(s0, path@[m]@) == root@,
                forall|j: int| #[trigger]
                    on_path(s0, element@, j) <==> (in_path(path@, j) || j == root@),
                forall|i: int|
                    valid_idx(s0, i) ==> #[trigger] root_of(self@, i) == root_of(s0, i),
                forall|i: int|
                    valid_idx(s0, i) && is_root(s0, i) ==> self@[i] == s0[i],
                forall|m: int|
                    0 <= m < k ==> self@[#[trigger] path@[m]@] is UpElement && parent_idx(
                        self@,
                        path@[m]@,
                    ) == root@,
                forall|j: int|
                    valid_idx(s0, j) && !in_path_upto(path@, j, k as int) ==> self@[j] == s0[j],
            decreases path@.len() - k,
        {
            let x = path[k];
            proof {
                assert(valid_idx(s0, x@));
                if !in_path_upto(path@, x@, k as int) {
                    assert(self@[x@] == s0[x@]);
                    assert(!is_root(s0, x@));
                } else {
                    let m = choose|m: int| 0 <= m < k && m < path@.len() && path@[m]@ == x@;
                    assert(self@[path@[m]@] is UpElement);
                }
                assert(self@[x@] is UpElement);
                assert(self@[root@] == s0[root@]);
                assert(is_root(self@, root@));
                lemma_on_path_of_root(self@, root@);
                assert(x@ != root@);
                assert(!on_path(self@, root@, x@));
            }
            let ghost sprev = self@;
            *vstd::std_specs::vec::vec_index_mut(&mut self.nodes, x.id) =
                ElementParent::UpElement(root);
            proof {
                assert(self@ == sprev.update(x@, ElementParent::UpElement(root)));
                assert(self@[x@] is UpElement && parent_idx(self@, x@) == root@);
                lemma_retarget(sprev, self@, x@, root@);
                lemma_root_of_root(sprev, root@);
                assert forall|i: int| valid_idx(s0, i) implies #[trigger] root_of(self@, i)
                    == root_of(s0, i) by {
                    assert(root_of(self@, i) == if on_path(sprev, i, x@) {
                        root_of(sprev, root@)
                    } else {
                        root_of(sprev, i)
                    });
                    if on_path(sprev, i, x@) {
                        assert(has_root(sprev, x@));
                        lemma_on_path_same_root(sprev, i, x@);
                        assert(root_of(sprev, x@) == root_of(s0, x@));
                        assert(root_of(s0, x@) == root@);
                    }
                }
                lemma_in_path_upto_step(path@, k as int);
            }
            k = k + 1;
        }
        proof {
            assert forall|i: int|
                valid_idx(s0, i) && on_path(s0, element@, i) && i != root@ implies self@[i]
                is UpElement && parent_idx(self@, i) == root@ by {
                assert(in_path(path@, i));
                let m = choose|m: int| 0 <= m < path@.len() && m < path@.len() && path@[m]@ == i;
                assert(self@[path@[m]@] is UpElement && parent_idx(self@, path@[m]@) == root@);
            }
            assert forall|i: int|
                valid_idx(s0, i) && !on_path(s0, element@, i) implies self@[i] == s0[i] by {
                assert(!in_path(path@, i));
            }
            assert(on_path(s0, element@, element@)) by {
                assert(reaches(s0, element@, element@, 0));
            }
            assert(root_of(self@, element@) == root@);
            if rank_bounded(s0) {
                assert forall|i: int| valid_idx(s0, i) && is_root(self@, i) implies is_root(
                    s0,
                    i,
                ) && rank_of(self@, i) == rank_of(s0, i) by {
                    if on_path(s0, element@, i) {
                        if i != root@ {
                            assert(self@[i] is UpElement);
                            assert(false);
                        } else {
                            assert(self@[i] == s0[i]);
                        }
                    } else {
                        assert(self@[i] == s0[i]);
                    }
                }
                lemma_rank_bounded_preserved(s0, self@);
            }
        }
        root
    }
}

/// After a compression that rewrote some cells to point directly at
/// the root `r` and left every other cell alone, a chain can only pass
/// elements of the corresponding old chain, or `r` itself.
proof fn lemma_compressed_path(
    s0: Seq<ElementParent>,
    s1: Seq<ElementParent>,
    r: int,
    i: int,
    j: int,
    f: nat,
)
    requires
        s1.len() == s0.len(),
        valid_idx(s0, r),
        is_root(s1, r),
        forall|k: int| #![trigger s1[k]]
            valid_idx(s0, k) ==> s1[k] == s0[k] || (s1[k] is UpElement && parent_idx(s1, k) == r),
        reaches(s1, i, j, f),
    ensures
        on_path(s0, i, j) || j == r,
    decreases f,
{
    if i == j {
        assert(reaches(s0, i, j, 0));
    } else {
        assert(!is_root(s1, i));
        let p1 = parent_idx(s1, i);
        if s1[i] == s0[i] {
            lemma_compressed_path(s0, s1, r, p1, j, (f - 1) as nat);
            if on_path(s0, p1, j) {
                let g = choose|g: nat| reaches(s0, p1, j, g);
                assert(reaches(s0, p1, j, g));
                assert(reaches(s0, i, j, (g + 1) as nat));
            }
        } else {
            assert(p1 == r);
            assert(reaches(s1, r, j, (f - 1) as nat));
            assert(j == r);
        }
    }
}

/// Chains concatenate: reaching `m` from `x` and `j` from `m` reaches
/// `j` from `x`.
proof fn lemma_reaches_trans(s: Seq<ElementParent>, x: int, m: int, j: int, f: nat, g: nat)
    requires
        reaches(s, x, m, f),
        reaches(s, m, j, g),
    ensures
        reaches(s, x, j, (f + g) as nat),
    decreases f,
{
    if x == m {
        lemma_reaches_mono(s, m, j, g, (f + g) as nat);
    } else {
        lemma_reaches_trans(s, parent_idx(s, x), m, j, (f - 1) as nat, g);
    }
}

/// Reaching within some fuel still holds for any larger fuel.
proof fn lemma_reaches_mono(s: Seq<ElementParent>, i: int, j: int, f1: nat, f2: nat)
    requires
        reaches(s, i, j, f1),
        f1 <= f2,
    ensures
        reaches(s, i, j, f2),
    decreases f1,
{
    if i != j {
        lemma_reaches_mono(s, parent_idx(s, i), j, (f1 - 1) as nat, (f2 - 1) as nat);
    }
}

/// A chain that stays clear of the compressed chain from `a0` is
/// untouched by the compression: it still reaches the same elements.
proof fn lemma_uncompressed_reach(
    s0: Seq<ElementParent>,
    s1: Seq<ElementParent>,
    a0: int,
    x: int,
    j: int,
    f: nat,
)
    requires
        s1.len() == s0.len(),
        forall|k: int|
            valid_idx(s0, k) && !on_path(s0, a0, k) ==> s1[k] == s0[k],
        reaches(s0, x, j, f),
        !on_path(s0, a0, j),
    ensures
        reaches(s1, x, j, f),
    decreases f,
{
    if on_path(s0, a0, x) {
        let g1 = choose|g1: nat| reaches(s0, a0, x, g1);
        assert(reaches(s0, a0, x, g1));
        lemma_reaches_trans(s0, a0, x, j, g1, f);
        assert(false);
    }
    assert(s1[x] == s0[x]);
    if x != j {
        lemma_uncompressed_reach(s0, s1, a0, parent_idx(s0, x), j, (f - 1) as nat);
    }
}

/// The root that survives when the sets rooted at `oa` and `ob` are
/// merged: the root of larger rank, with ties won by `oa`.
pub open spec fn union_winner(s: Seq<ElementParent>, oa: int, ob: int) -> int {
    if oa != ob && rank_of(s, oa) < rank_of(s, ob) {
        ob
    } else {
        oa
    }
}

/// How a completed union has changed the two roots involved, relating
/// the old arena `s` to the new arena `s2`: the losing root now points
/// at the winner, the winner's rank grows by one exactly when the ranks
/// were equal (staying put at `i32::MAX`), and every other root is
/// untouched.
pub open spec fn union_policy(s: Seq<ElementParent>, s2: Seq<ElementParent>, oa: int, ob: int) -> bool {
    if oa == ob {
        forall|i: int| valid_idx(s, i) && is_root(s, i) ==> s2[i] == s[i]
    } else if rank_of(s, oa) < rank_of(s, ob) {
        &&& s2[ob] == s[ob]
        &&& s2[oa] is UpElement
        &&& parent_idx(s2, oa) == ob
        &&& forall|i: int| valid_idx(s, i) && is_root(s, i) && i != oa ==> s2[i] == s[i]
    } else if rank_of(s, ob) < rank_of(s, oa) {
        &&& s2[oa] == s[oa]
        &&& s2[ob] is UpElement
        &&& parent_idx(s2, ob) == oa
        &&& forall|i: int| valid_idx(s, i) && is_root(s, i) && i != ob ==> s2[i] == s[i]
    } else {
        &&& is_root(s2, oa)
        &&& rank_of(s2, oa) == if rank_of(s, oa) < i32::MAX {
            rank_of(s, oa) + 1
        } else {
            rank_of(s, oa)
        }
        &&& s2[ob] is UpElement
        &&& parent_idx(s2, ob) == oa
        &&& forall|i: int| valid_idx(s, i) && is_root(s, i) && i != oa && i != ob ==> s2[i] == s[i]
    }
}

impl UnionFind {
    /// Merges the sets containing `a` and `b`.  Returns `NoChange` when
    /// they were already the same set (in particular for `a == b`), in
    /// which case no rank, no root and no set changes: repeating a union
    /// is harmless, and at most rewrites parent links to point more
    /// directly at the same root.  Otherwise merges by rank and returns
    /// `Updated`; afterwards `a` and `b` have the same root, the
    /// survivor chosen by [`union_winner`] and reranked by
    /// [`union_policy`].  Either way, only the two traversed chains and
    /// the two roots are touched: every element off both chains keeps
    /// its state bit for bit.
    pub fn union(&mut self, a: Element, b: Element) -> (r: UnionResult)
        requires
            wf(old(self)@),
            valid_idx(old(self)@, a@),
            valid_idx(old(self)@, b@),
        ensures
            wf(final(self)@),
            final(self)@.len() == old(self)@.len(),
            (r == UnionResult::NoChange) <==> root_of(old(self)@, a@) == root_of(old(self)@, b@),
            root_of(final(self)@, a@) == root_of(final(self)@, b@),
            root_of(final(self)@, a@) == union_winner(
                old(self)@,
                root_of(old(self)@, a@),
                root_of(old(self)@, b@),
            ),
            forall|i: int|
                valid_idx(old(self)@, i) ==> #[trigger] root_of(final(self)@, i) == if root_of(
                    old(self)@,
                    i,
                ) == root_of(old(self)@, a@) || root_of(old(self)@, i) == root_of(old(self)@, b@) {
                    root_of(final(self)@, a@)
                } else {
                    root_of(old(self)@, i)
                },
            union_policy(
                old(self)@,
                final(self)@,
                root_of(old(self)@, a@),
                root_of(old(self)@, b@),
            ),
            forall|j: int|
                #![trigger on_path(old(self)@, a@, j)]
                #![trigger on_path(old(self)@, b@, j)]
                valid_idx(old(self)@, j) && !on_path(old(self)@, a@, j) && !on_path(
                    old(self)@,
                    b@,
                    j,
                ) ==> final(self)@[j] == old(self)@[j],
            forall|j: int|
                #![trigger on_path(old(self)@, a@, j)]
                #![trigger on_path(old(self)@, b@, j)]
                valid_idx(old(self)@, j) && (on_path(old(self)@, a@, j) || on_path(
                    old(self)@,
                    b@,
                    j,
                )) && j != root_of(old(self)@, a@) && j != root_of(old(self)@, b@)
                    ==> final(self)@[j] is UpElement && (parent_idx(final(self)@, j) == root_of(old(self)@, a@)
                    || parent_idx(final(self)@, j) == root_of(old(self)@, b@)),
            rank_bounded(old(self)@) ==> rank_bounded(final(self)@),
    {
        let ghost s0 = self@;
        let ghost oa = root_of(s0, a@);
        let ghost ob = root_of(s0, b@);
        let my_root = self.find(a);
        let ghost s1 = self@;
        let their_root = self.find(b);
        let ghost s2 = self@;
        proof {
            assert(my_root@ == oa);
            assert(their_root@ == ob);
            assert(has_root(s0, a@));
            lemma_root_of_props(s0, a@);
            assert(has_root(s0, b@));
            lemma_root_of_props(s0, b@);
            assert(is_root(s0, oa) && is_root(s0, ob));
            assert(s1[oa] == s0[oa]);
            assert(is_root(s1, oa));
            assert(s2[oa] == s1[oa]);
            assert(s2[ob] == s1[ob] && s1[ob] == s0[ob]);
            assert(forall|i: int|
                valid_idx(s0, i) ==> #[trigger] root_of(s2, i) == root_of(s0, i));
            assert(forall|i: int|
                valid_idx(s0, i) && is_root(s0, i) ==> s2[i] == s0[i]);
            assert(on_path(s0, a@, oa));
            assert(on_path(s0, b@, ob));
            assert(is_root(s1, oa));
            assert forall|k: int| #![trigger s1[k]]
                valid_idx(s0, k) implies s1[k] == s0[k] || (s1[k] is UpElement && parent_idx(
                s1,
                k,
            ) == oa) by {
                if on_path(s0, a@, k) && k != oa {
                    assert(s1[k] is UpElement && parent_idx(s1, k) == oa);
                }
            }
            assert forall|j: int|
                #![trigger on_path(s0, a@, j)]
                #![trigger on_path(s0, b@, j)]
                valid_idx(s0, j) && !on_path(s0, a@, j) && !on_path(s0, b@, j) implies s2[j]
                == s0[j] by {
                assert(s1[j] == s0[j]);
                assert(j != oa && j != ob);
                if on_path(s1, b@, j) {
                    let f = choose|f: nat| reaches(s1, b@, j, f);
                    assert(reaches(s1, b@, j, f));
                    lemma_compressed_path(s0, s1, oa, b@, j, f);
                    assert(false);
                }
                assert(s2[j] == s1[j]);
            }
            assert forall|j: int|
                #![trigger on_path(s0, a@, j)]
                #![trigger on_path(s0, b@, j)]
                valid_idx(s0, j) && (on_path(s0, a@, j) || on_path(s0, b@, j)) && j != oa && j
                != ob implies s2[j] is UpElement && (parent_idx(s2, j) == oa || parent_idx(s2, j)
                == ob) by {
                if on_path(s0, a@, j) {
                    assert(s1[j] is UpElement && parent_idx(s1, j) == oa);
                    if on_path(s1, b@, j) {
                        assert(s2[j] is UpElement && parent_idx(s2, j) == ob);
                    } else {
                        assert(s2[j] == s1[j]);
                    }
                } else {
                    assert(s1[j] == s0[j]);
                    let f = choose|f: nat| reaches(s0, b@, j, f);
                    assert(reaches(s0, b@, j, f));
                    lemma_uncompressed_reach(s0, s1, a@, b@, j, f);
                    assert(on_path(s1, b@, j));
                    assert(s2[j] is UpElement && parent_idx(s2, j) == ob);
                }
            }
        }
        if my_root.id == their_root.id {
            proof {
                assert(oa == ob);
            }
            return UnionResult::NoChange;
        }
        proof {
            assert(oa != ob);
        }
        let my_rank = match self.nodes[my_root.id] {
            ElementParent::Rank(rank) => rank,
            ElementParent::UpElement(_) => unreached(),
        };
        let their_rank = match self.nodes[their_root.id] {
            ElementParent::Rank(rank) => rank,
            ElementParent::UpElement(_) => unreached(),
        };
        proof {
            assert(my_rank == rank_of(s0, oa));
            assert(their_rank == rank_of(s0, ob));
            assert(valid_idx(s0, oa));
            assert(has_root(s0, oa));
            assert(rank_of(s0, oa) >= 0);
            assert(valid_idx(s0, ob));
            assert(has_root(s0, ob));
            assert(rank_of(s0, ob) >= 0);
        }
        let (lesser, greater) = if my_rank < their_rank {
            (my_root, their_root)
        } else {
            (their_root, my_root)
        };
        let ghost sprev = self@;
        *vstd::std_specs::vec::vec_index_mut(&mut self.nodes, lesser.id) =
            ElementParent::UpElement(greater);
        proof {
            assert(self@ == sprev.update(lesser@, ElementParent::UpElement(greater)));
            assert(is_root(sprev, greater@) && is_root(sprev, lesser@));
            lemma_on_path_of_root(sprev, greater@);
            assert(!on_path(sprev, greater@, lesser@));
            lemma_retarget(sprev, self@, lesser@, greater@);
            lemma_root_of_root(sprev, greater@);
            assert forall|i: int| valid_idx(s0, i) implies #[trigger] root_of(self@, i)
                == (if root_of(s0, i) == lesser@ {
                greater@
            } else {
                root_of(s0, i)
            }) by {
                assert(has_root(sprev, i));
                lemma_on_path_root(sprev, i, lesser@);
                assert(root_of(self@, i) == if on_path(sprev, i, lesser@) {
                    root_of(sprev, greater@)
                } else {
                    root_of(sprev, i)
                });
            }
        }
        let ghost s3 = self@;
        if my_rank == their_rank {
            let new_rank = if my_rank < i32::MAX {
                my_rank + 1
            } else {
                my_rank
            };
            *vstd::std_specs::vec::vec_index_mut(&mut self.nodes, my_root.id) =
                ElementParent::Rank(new_rank);
            proof {
                assert(self@ == s3.update(oa, ElementParent::Rank(new_rank)));
                assert(is_root(s3, oa));
                lemma_rerank(s3, self@, oa);
            }
        }
        proof {
            assert(root_of(self@, a@) == union_winner(s0, oa, ob));
            assert(root_of(self@, b@) == union_winner(s0, oa, ob));
            assert forall|j: int|
                #![trigger on_path(s0, a@, j)]
                #![trigger on_path(s0, b@, j)]
                valid_idx(s0, j) && !on_path(s0, a@, j) && !on_path(s0, b@, j) implies self@[j]
                == s0[j] by {
                assert(s2[j] == s0[j]);
                assert(j != oa && j != ob);
                assert(s3 == s2.update(lesser@, ElementParent::UpElement(greater)));
                assert(s3[j] == s2[j]);
                if my_rank == their_rank {
                    assert(self@[j] == s3[j]);
                } else {
                    assert(self@ == s3);
                }
            }
            assert forall|j: int|
                #![trigger on_path(s0, a@, j)]
                #![trigger on_path(s0, b@, j)]
                valid_idx(s0, j) && (on_path(s0, a@, j) || on_path(s0, b@, j)) && j != oa && j
                != ob implies self@[j] is UpElement && (parent_idx(self@, j) == oa || parent_idx(
                self@,
                j,
            ) == ob) by {
                assert(s2[j] is UpElement && (parent_idx(s2, j) == oa || parent_idx(s2, j) == ob));
                assert(s3 == s2.update(lesser@, ElementParent::UpElement(greater)));
                assert(s3[j] == s2[j]);
                if my_rank == their_rank {
                    assert(self@[j] == s3[j]);
                } else {
                    assert(self@ == s3);
                }
            }
            if rank_bounded(s0) {
                assert(rank_bounded(s2));
                assert(greater@ == union_winner(s0, oa, ob));
                assert(!is_root(self@, lesser@));
                assert forall|i: int| valid_idx(s2, i) implies #[trigger] root_of(self@, i)
                    == (if root_of(s2, i) == lesser@ || root_of(s2, i) == greater@ {
                    greater@
                } else {
                    root_of(s2, i)
                }) by {
                    assert(root_of(s2, i) == root_of(s0, i));
                    assert(root_of(s3, i) == if root_of(s0, i) == lesser@ {
                        greater@
                    } else {
                        root_of(s0, i)
                    });
                }
                assert forall|i: int|
                    valid_idx(s2, i) && is_root(self@, i) && i != greater@ implies is_root(
                    s2,
                    i,
                ) && rank_of(self@, i) == rank_of(s2, i) by {
                    assert(i != lesser@);
                    assert(self@[i] == s2[i]);
                }
                lemma_rank_bounded_merge(s2, self@, lesser@, greater@);
            }
        }
        UnionResult::Updated
    }

    /// `a` and `b` are currently in the same set.  Both chains are
    /// compressed on the way, but the partition and all ranks stay.
    pub fn same_set(&mut self, a: Element, b: Element) -> (r: bool)
        requires
            wf(old(self)@),
            valid_idx(old(self)@, a@),
            valid_idx(old(self)@, b@),
        ensures
            wf(final(self)@),
            final(self)@.len() == old(self)@.len(),
            r == same_set_spec(old(self)@, a@, b@),
            forall|i: int|
                valid_idx(old(self)@, i) ==> #[trigger] root_of(final(self)@, i) == root_of(
                    old(self)@,
                    i,
                ),
            forall|i: int|
                valid_idx(old(self)@, i) && is_root(old(self)@, i) ==> final(self)@[i] == old(
                    self,
                )@[i],
            rank_bounded(old(self)@) ==> rank_bounded(final(self)@),
    {
        let ra = self.find(a);
        let rb = self.find(b);
        ra.id == rb.id
    }

    /// Rewrites the root `child` to point at `parent`, melting `child`'s
    /// set into `parent`'s.  `parent` must not be in `child`'s set, so
    /// no cycle can arise.  This builds parent chains by hand, the way a
    /// caller of the original interface could write an element's state.
    pub fn set_parent(&mut self, child: Element, parent: Element)
        requires
            wf(old(self)@),
            valid_idx(old(self)@, child@),
            valid_idx(old(self)@, parent@),
            is_root(old(self)@, child@),
            root_of(old(self)@, parent@) != child@,
        ensures
            wf(final(self)@),
            final(self)@ == old(self)@.update(child@, ElementParent::UpElement(parent)),
            forall|i: int|
                valid_idx(old(self)@, i) ==> #[trigger] root_of(final(self)@, i) == if root_of(
                    old(self)@,
                    i,
                ) == child@ {
                    root_of(old(self)@, parent@)
                } else {
                    root_of(old(self)@, i)
                },
            rank_bounded(old(self)@) ==> rank_bounded(final(self)@),
    {
        let ghost s0 = self@;
        *vstd::std_specs::vec::vec_index_mut(&mut self.nodes, child.id) =
            ElementParent::UpElement(parent);
        proof {
            assert(self@ == s0.update(child@, ElementParent::UpElement(parent)));
            assert(has_root(s0, parent@));
            lemma_on_path_root(s0, parent@, child@);
            assert(!on_path(s0, parent@, child@));
            lemma_retarget(s0, self@, child@, parent@);
            assert forall|i: int| valid_idx(s0, i) implies #[trigger] root_of(self@, i)
                == (if root_of(s0, i) == child@ {
                root_of(s0, parent@)
            } else {
                root_of(s0, i)
            }) by {
                assert(has_root(s0, i));
                lemma_on_path_root(s0, i, child@);
            }
            if rank_bounded(s0) {
                lemma_root_of_props(s0, parent@);
                let w = root_of(s0, parent@);
                assert(is_root(s0, w));
                lemma_root_of_root(s0, w);
                assert(!is_root(self@, child@));
                assert forall|i: int| valid_idx(s0, i) implies #[trigger] root_of(self@, i)
                    == (if root_of(s0, i) == child@ || root_of(s0, i) == w {
                    w
                } else {
                    root_of(s0, i)
                }) by {
                    assert(root_of(self@, i) == if root_of(s0, i) == child@ {
                        root_of(s0, parent@)
                    } else {
                        root_of(s0, i)
                    });
                }
                assert forall|i: int|
                    valid_idx(s0, i) && is_root(self@, i) && i != w implies is_root(s0, i)
                    && rank_of(self@, i) == rank_of(s0, i) by {
                    assert(i != child@);
                    assert(self@[i] == s0[i]);
                }
                lemma_rank_bounded_merge(s0, self@, child@, w);
            }
        }
    }
}

/// Follows parent links from `node` to the root of its set, compressing
/// the path; see [`UnionFind::find`].
pub fn find_root(uf: &mut UnionFind, node: Element) -> (root: Element)
    requires
        wf(old(uf)@),
        valid_idx(old(uf)@, node@),
    ensures
        wf(final(uf)@),
        final(uf)@.len() == old(uf)@.len(),
        root@ == root_of(old(uf)@, node@),
        is_root(final(uf)@, root@),
        root_of(final(uf)@, node@) == root@,
        forall|i: int|
            valid_idx(old(uf)@, i) ==> #[trigger] root_of(final(uf)@, i) == root_of(old(uf)@, i),
        forall|i: int|
            valid_idx(old(uf)@, i) && is_root(old(uf)@, i) ==> final(uf)@[i] == old(uf)@[i],
        forall|i: int| #![trigger on_path(old(uf)@, node@, i)]
            valid_idx(old(uf)@, i) && on_path(old(uf)@, node@, i) && i != root@ ==> final(uf)@[i]
                is UpElement && parent_idx(final(uf)@, i) == root@,
        forall|i: int| #![trigger on_path(old(uf)@, node@, i)]
            valid_idx(old(uf)@, i) && !on_path(old(uf)@, node@, i) ==> final(uf)@[i] == old(
                uf,
            )@[i],
        rank_bounded(old(uf)@) ==> rank_bounded(final(uf)@),
{
    uf.find(node)
}

/// Appending one more step to a chain: if the chain from `i` passes
/// `j`, and `j` is a non-root, the chain from `i` also passes `j`'s
/// parent.
proof fn lemma_reaches_trans_one(s: Seq<ElementParent>, i: int, j: int, f: nat)
    requires
        reaches(s, i, j, f),
        valid_idx(s, j),
        !is_root(s, j),
        valid_idx(s, parent_idx(s, j)),
    ensures
        reaches(s, i, parent_idx(s, j), (f + 1) as nat),
    decreases f,
{
    if i == j {
        assert(reaches(s, parent_idx(s, j), parent_idx(s, j), f));
    } else {
        lemma_reaches_trans_one(s, parent_idx(s, i), j, (f - 1) as nat);
    }
}

impl Element {
    /// Creates a fresh element in `uf`; see [`UnionFind::new_element`].
    pub fn new(uf: &mut UnionFind, start_rank: i32) -> (e: Element)
        requires
            wf(old(uf)@),
            start_rank >= 0,
        ensures
            final(uf)@ == old(uf)@.push(ElementParent::Rank(start_rank)),
            wf(final(uf)@),
            e@ == old(uf)@.len(),
            is_root(final(uf)@, e@),
            rank_of(final(uf)@, e@) == start_rank,
            root_of(final(uf)@, e@) == e@,
            forall|i: int|
                valid_idx(old(uf)@, i) ==> #[trigger] root_of(final(uf)@, i) == root_of(
                    old(uf)@,
                    i,
                ),
            rank_bounded(old(uf)@) && start_rank == 0 ==> rank_bounded(final(uf)@),
    {
        uf.new_element(start_rank)
    }
}

/// Idempotence of `find`: the root of an element's root is that root
/// itself, so a second `find` on the result of a `find` returns the
/// same element and changes nothing.
pub proof fn lemma_find_idempotent(s: Seq<ElementParent>, i: int)
    requires
        wf(s),
        valid_idx(s, i),
    ensures
        root_of(s, root_of(s, i)) == root_of(s, i),
{
    assert(has_root(s, i));
    lemma_root_of_props(s, i);
    lemma_root_of_root(s, root_of(s, i));
}

/// Two to the power `k`.
pub open spec fn pow2(k: nat) -> nat
    decreases k,
{
    if k == 0 {
        1
    } else {
        2 * pow2((k - 1) as nat)
    }
}

/// The largest `k` with `pow2(k) <= n` (and `0` for `n == 0`).
pub open spec fn log2_floor(n: nat) -> nat
    decreases n,
{
    if n < 2 {
        0
    } else {
        1 + log2_floor(n / 2)
    }
}

/// The set of elements whose root is `r`.
pub open spec fn class_of(s: Seq<ElementParent>, r: int) -> Set<int> {
    Set::new(|i: int| valid_idx(s, i) && root_of(s, i) == r)
}

/// Union by rank keeps every tree shallow: the set rooted at a root of
/// rank `k` has at least `pow2(k)` members.  This holds whenever all
/// elements were created with rank zero, and is preserved by every
/// operation of the structure.
pub open spec fn rank_bounded(s: Seq<ElementParent>) -> bool {
    forall|r: int|
        valid_idx(s, r) && is_root(s, r) ==> pow2(rank_of(s, r) as nat) <= #[trigger] class_of(
            s,
            r,
        ).len()
}

/// Every class is a finite set of at most `s.len()` elements.
pub proof fn lemma_class_finite(s: Seq<ElementParent>, r: int)
    ensures
        class_of(s, r).finite(),
        class_of(s, r).len() <= s.len(),
{
    lemma_int_range(0, s.len() as int);
    assert(class_of(s, r).subset_of(set_int_range(0, s.len() as int)));
    lemma_len_subset(class_of(s, r), set_int_range(0, s.len() as int));
}

/// The size of a union of two disjoint finite sets is the sum of their
/// sizes.
proof fn lemma_disjoint_union_len<A>(a: Set<A>, b: Set<A>)
    requires
        a.finite(),
        b.finite(),
        a.disjoint(b),
    ensures
        a.union(b).finite(),
        a.union(b).len() == a.len() + b.len(),
    decreases a.len(),
{
    broadcast use vstd::set_lib::lemma_set_union_finite_iff;

    if a.len() == 0 {
        assert(a.union(b) =~= b);
    } else {
        let e = a.choose();
        assert(a.contains(e));
        assert(!b.contains(e));
        assert(a.remove(e).union(b) =~= a.union(b).remove(e));
        lemma_disjoint_union_len(a.remove(e), b);
        assert(a.union(b).contains(e));
        assert(a.union(b).remove(e).len() == a.union(b).len() - 1);
    }
}

/// `pow2` is positive.
proof fn lemma_pow2_pos(k: nat)
    ensures
        pow2(k) >= 1,
    decreases k,
{
    if k > 0 {
        lemma_pow2_pos((k - 1) as nat);
    }
}

/// If `pow2(k)` fits under `n`, then `k` is at most `log2_floor(n)`.
pub proof fn lemma_pow2_le_log2(k: nat, n: nat)
    requires
        pow2(k) <= n,
    ensures
        k <= log2_floor(n),
    decreases k,
{
    if k > 0 {
        lemma_pow2_pos((k - 1) as nat);
        assert(pow2((k - 1) as nat) <= n / 2);
        lemma_pow2_le_log2((k - 1) as nat, n / 2);
    }
}

/// The rank bound, as a statement about the whole forest: in a
/// well-formed forest built from rank-zero singletons (`rank_bounded`),
/// the rank of every root is at most the floor of the base-two
/// logarithm of the number of elements.
pub proof fn lemma_rank_le_log2(s: Seq<ElementParent>, r: int)
    requires
        wf(s),
        rank_bounded(s),
        valid_idx(s, r),
        is_root(s, r),
    ensures
        0 <= rank_of(s, r),
        rank_of(s, r) <= log2_floor(s.len() as nat),
{
    assert(has_root(s, r));
    lemma_class_finite(s, r);
    assert(pow2(rank_of(s, r) as nat) <= class_of(s, r).len());
    lemma_pow2_le_log2(rank_of(s, r) as nat, s.len() as nat);
}

/// A fresh rank-zero singleton keeps `rank_bounded`.
proof fn lemma_rank_bounded_push(s: Seq<ElementParent>)
    requires
        wf(s),
        rank_bounded(s),
    ensures
        rank_bounded(s.push(ElementParent::Rank(0))),
{
    let s2 = s.push(ElementParent::Rank(0));
    let n = s.len() as int;
    lemma_push_root(s, 0);
    assert forall|r: int| valid_idx(s2, r) && is_root(s2, r) implies pow2(
        rank_of(s2, r) as nat,
    ) <= #[trigger] class_of(s2, r).len() by {
        lemma_class_finite(s2, r);
        if r < n {
            assert(s2[r] == s[r]);
            assert(root_of(s2, n) == n);
            assert(class_of(s2, r) =~= class_of(s, r));
            assert(pow2(rank_of(s, r) as nat) <= class_of(s, r).len());
        } else {
            assert(r == n);
            assert(class_of(s2, n).contains(n));
            assert(Set::empty().insert(n).subset_of(class_of(s2, n)));
            lemma_len_subset(Set::empty().insert(n), class_of(s2, n));
            assert(rank_of(s2, n) == 0);
        }
    }
}

/// When an operation changes no root and no rank, `rank_bounded` carries
/// over.
proof fn lemma_rank_bounded_preserved(s: Seq<ElementParent>, s2: Seq<ElementParent>)
    requires
        rank_bounded(s),
        s2.len() == s.len(),
        forall|i: int| valid_idx(s, i) ==> #[trigger] root_of(s2, i) == root_of(s, i),
        forall|i: int|
            valid_idx(s, i) && is_root(s2, i) ==> is_root(s, i) && rank_of(s2, i) == rank_of(s, i),
    ensures
        rank_bounded(s2),
{
    assert forall|r: int| valid_idx(s2, r) && is_root(s2, r) implies pow2(
        rank_of(s2, r) as nat,
    ) <= #[trigger] class_of(s2, r).len() by {
        assert(class_of(s2, r) =~= class_of(s, r));
        assert(pow2(rank_of(s, r) as nat) <= class_of(s, r).len());
    }
}

/// When the set rooted at `x` is melted into the set rooted at `w`,
/// `rank_bounded` carries over, provided the winner's rank grows by one
/// only off two equal ranks.
proof fn lemma_rank_bounded_merge(
    s: Seq<ElementParent>,
    s2: Seq<ElementParent>,
    x: int,
    w: int,
)
    requires
        wf(s),
        rank_bounded(s),
        s2.len() == s.len(),
        valid_idx(s, x),
        valid_idx(s, w),
        is_root(s, x),
        is_root(s, w),
        !is_root(s2, x),
        x != w,
        forall|i: int|
            valid_idx(s, i) ==> #[trigger] root_of(s2, i) == if root_of(s, i) == x || root_of(
                s,
                i,
            ) == w {
                w
            } else {
                root_of(s, i)
            },
        forall|i: int|
            valid_idx(s, i) && is_root(s2, i) && i != w ==> is_root(s, i) && rank_of(s2, i)
                == rank_of(s, i),
        is_root(s2, w),
        rank_of(s2, w) == rank_of(s, w) || (rank_of(s, x) == rank_of(s, w) && rank_of(s2, w)
            == rank_of(s, w) + 1),
    ensures
        rank_bounded(s2),
{
    lemma_root_of_root(s, x);
    lemma_root_of_root(s, w);
    let cx = class_of(s, x);
    let cw = class_of(s, w);
    lemma_class_finite(s, x);
    lemma_class_finite(s, w);
    assert(cx.disjoint(cw));
    lemma_disjoint_union_len(cx, cw);
    assert(class_of(s2, w) =~= cx.union(cw));
    assert(class_of(s2, w).len() == cx.len() + cw.len());
    assert forall|r: int| valid_idx(s2, r) && is_root(s2, r) implies pow2(
        rank_of(s2, r) as nat,
    ) <= #[trigger] class_of(s2, r).len() by {
        if r == w {
            assert(has_root(s, w) && rank_of(s, w) >= 0);
            assert(pow2(rank_of(s, w) as nat) <= cw.len());
            assert(pow2(rank_of(s, x) as nat) <= cx.len());
            if rank_of(s2, w) == rank_of(s, w) + 1 {
                assert(pow2(rank_of(s2, w) as nat) == 2 * pow2(rank_of(s, w) as nat));
            }
        } else {
            assert(r != x);
            assert(class_of(s2, r) =~= class_of(s, r));
            assert(pow2(rank_of(s, r) as nat) <= class_of(s, r).len());
        }
    }
}

} // verus!
