//! An unbalanced binary search tree over signed integers, supporting
//! insertion, membership search, height computation, and in-order traversal.
//!
//! Duplicate insertions are no-ops: the tree never stores the same value
//! twice, and every value in a node's left subtree is strictly less than the
//! node's value, every value in its right subtree strictly greater.

use vstd::prelude::*;

verus! {

/// One tree node: a value and two optional subtrees, each exclusively owned.
pub struct Node {
    pub value: i32,
    pub left: Option<Box<Node>>,
    pub right: Option<Box<Node>>,
}

/// The tree itself: an optional root node.
pub struct BST {
    pub root: Option<Box<Node>>,
}

/// The in-order sequence of a subtree: left subtree, node value, right subtree.
pub open spec fn seq_of(node: Option<Box<Node>>) -> Seq<i32>
    decreases node,
{
    match node {
        None => Seq::empty(),
        Some(n) => seq_of(n.left) + seq![n.value] + seq_of(n.right),
    }
}

/// Structural membership: whether `x` occurs anywhere in the subtree.
pub open spec fn has(node: Option<Box<Node>>, x: i32) -> bool
    decreases node,
{
    match node {
        None => false,
        Some(n) => has(n.left, x) || x == n.value || has(n.right, x),
    }
}

/// The height of a subtree: an empty subtree has height 0, any other
/// 1 plus the larger of its children's heights.
pub open spec fn height_of(node: Option<Box<Node>>) -> nat
    decreases node,
{
    match node {
        None => 0,
        Some(n) => 1 + if height_of(n.left) >= height_of(n.right) {
            height_of(n.left)
        } else {
            height_of(n.right)
        },
    }
}

/// The binary-search ordering invariant: everything in a left subtree is
/// strictly below the node's value, everything in a right subtree strictly
/// above, recursively. It rules out duplicates.
pub open spec fn wf_node(node: Option<Box<Node>>) -> bool
    decreases node,
{
    match node {
        None => true,
        Some(n) => {
            &&& wf_node(n.left)
            &&& wf_node(n.right)
            &&& forall|x: i32| has(n.left, x) ==> x < n.value
            &&& forall|x: i32| has(n.right, x) ==> x > n.value
        },
    }
}

/// What insertion builds: descend by comparison, attach a fresh leaf at the
/// first empty slot, and leave the tree untouched when the value is met.
pub open spec fn spec_insert(node: Option<Box<Node>>, value: i32) -> Option<Box<Node>>
    decreases node,
{
    match node {
        None => Some(Box::new(Node { value, left: None, right: None })),
        Some(n) => if value < n.value {
            Some(Box::new(Node { value: n.value, left: spec_insert(n.left, value), right: n.right }))
        } else if value > n.value {
            Some(Box::new(Node { value: n.value, left: n.left, right: spec_insert(n.right, value) }))
        } else {
            Some(n)
        },
    }
}

impl Node {
    /// A fresh leaf holding `value`.
    pub fn new(value: i32) -> (r: Self)
        ensures
            r == (Node { value, left: None, right: None }),
    {
        Self { value, left: None, right: None }
    }
}

impl View for BST {
    type V = Seq<i32>;

    open spec fn view(&self) -> Seq<i32> {
        seq_of(self.root)
    }
}

impl BST {
    /// Whether the tree satisfies the binary-search ordering invariant.
    /// `new` establishes it and every operation preserves it.
    pub open spec fn wf(self) -> bool {
        wf_node(self.root)
    }

    /// Whether the tree holds `x`.
    pub open spec fn has_value(self, x: i32) -> bool {
        has(self.root, x)
    }

    /// The tree's height as a mathematical number.
    pub open spec fn spec_height(self) -> nat {
        height_of(self.root)
    }

    /// An empty tree.
    pub fn new() -> (r: Self)
        ensures
            r.wf(),
            r@ == Seq::<i32>::empty(),
            r.spec_height() == 0,
            forall|x: i32| !r.has_value(x),
    {
        Self { root: None }
    }

    /// Insert `value`, growing the tree by one leaf, or leaving it unchanged
    /// when `value` is already present. Never fails.
    pub fn insert(&mut self, value: i32)
        ensures
            final(self).root == spec_insert(old(self).root, value),
            old(self).wf() ==> final(self).wf(),
            forall|x: i32| final(self).has_value(x) <==> (old(self).has_value(x) || x == value),
    {
        let root = self.root.take();
        self.root = Self::insert_rec(root, value);
        proof {
            lemma_insert_has(old(self).root, value);
            if old(self).wf() {
                lemma_insert_wf(old(self).root, value);
            }
        }
    }

    /// The recursive worker behind `insert`: returns the subtree with `value`
    /// inserted, exactly as `spec_insert` describes.
    pub fn insert_rec(node: Option<Box<Node>>, value: i32) -> (r: Option<Box<Node>>)
        ensures
            r == spec_insert(node, value),
        decreases node,
    {
        match node {
            None => Some(Box::new(Node::new(value))),
            Some(mut n) => {
                if value < n.value {
                    let sub = n.left.take();
                    n.left = Self::insert_rec(sub, value);
                } else if value > n.value {
                    let sub = n.right.take();
                    n.right = Self::insert_rec(sub, value);
                }
                Some(n)
            },
        }
    }

    /// Whether `value` is stored in the tree. Requires the ordering invariant,
    /// which every tree built from `new` and `insert` satisfies.
    pub fn search(&self, value: i32) -> (r: bool)
        requires
            self.wf(),
        ensures
            r == self.has_value(value),
    {
        Self::search_rec(&self.root, value)
    }

    /// The recursive worker behind `search`: descend by comparison, true on a
    /// match, false at an empty slot.
    pub fn search_rec(node: &Option<Box<Node>>, value: i32) -> (r: bool)
        requires
            wf_node(*node),
        ensures
            r == has(*node, value),
        decreases node,
    {
        match node {
            None => false,
            Some(n) => {
                if value == n.value {
                    true
                } else if value < n.value {
                    proof {
                        assert(has(n.right, value) == false);
                    }
                    Self::search_rec(&n.left, value)
                } else {
                    proof {
                        assert(has(n.left, value) == false);
                    }
                    Self::search_rec(&n.right, value)
                }
            },
        }
    }

    /// The height of the tree: 0 when empty, else 1 plus the larger child
    /// height at each node. The bound in `requires` only keeps the count
    /// representable; no tree that fits in memory approaches it.
    pub fn height(&self) -> (r: i32)
        requires
            self.spec_height() <= i32::MAX,
        ensures
            r == self.spec_height(),
    {
        Self::height_rec(&self.root)
    }

    /// The recursive worker behind `height`.
    pub fn height_rec(node: &Option<Box<Node>>) -> (r: i32)
        requires
            height_of(*node) <= i32::MAX,
        ensures
            r == height_of(*node),
        decreases node,
    {
        match node {
            None => 0,
            Some(n) => {
                let lh: i32 = Self::height_rec(&n.left);
                let rh: i32 = Self::height_rec(&n.right);
                1 + if lh >= rh {
                    lh
                } else {
                    rh
                }
            },
        }
    }

    /// The in-order traversal: every stored value, in ascending order when the
    /// tree satisfies the ordering invariant.
    pub fn inorder(&self) -> (r: Vec<i32>)
        ensures
            r@ == self@,
    {
        let mut out: Vec<i32> = Vec::new();
        Self::inorder_rec(&self.root, &mut out);
        out
    }

    /// The recursive worker behind `inorder`: appends the subtree's in-order
    /// sequence to `out`.
    pub fn inorder_rec(node: &Option<Box<Node>>, out: &mut Vec<i32>)
        ensures
            final(out)@ == old(out)@ + seq_of(*node),
        decreases node,
    {
        match node {
            None => {},
            Some(n) => {
                Self::inorder_rec(&n.left, out);
                out.push(n.value);
                Self::inorder_rec(&n.right, out);
            },
        }
    }
}

/// Insertion adds exactly `value` to the tree's contents: afterwards a value
/// is present if and only if it was present before or is the one inserted.
/// Since `search` returns membership exactly, a value just inserted is found,
/// and a value never inserted is still absent.
pub proof fn lemma_insert_has(node: Option<Box<Node>>, value: i32)
    ensures
        forall|x: i32| has(spec_insert(node, value), x) <==> (has(node, x) || x == value),
    decreases node,
{
    match node {
        None => {
            assert forall|x: i32|
                has(spec_insert(node, value), x) <==> (has(node, x) || x == value) by {
                assert(has(None::<Box<Node>>, x) == false);
            }
        },
        Some(n) => {
            if value < n.value {
                lemma_insert_has(n.left, value);
                let r = spec_insert(node, value);
                assert(r == Some(
                    Box::new(Node { value: n.value, left: spec_insert(n.left, value), right: n.right }),
                ));
                assert forall|x: i32| has(r, x) <==> (has(node, x) || x == value) by {
                    assert(has(r, x) == (has(spec_insert(n.left, value), x) || x == n.value
                        || has(n.right, x)));
                    assert(has(node, x) == (has(n.left, x) || x == n.value || has(n.right, x)));
                }
            } else if value > n.value {
                lemma_insert_has(n.right, value);
                let r = spec_insert(node, value);
                assert(r == Some(
                    Box::new(Node { value: n.value, left: n.left, right: spec_insert(n.right, value) }),
                ));
                assert forall|x: i32| has(r, x) <==> (has(node, x) || x == value) by {
                    assert(has(r, x) == (has(n.left, x) || x == n.value
                        || has(spec_insert(n.right, value), x)));
                    assert(has(node, x) == (has(n.left, x) || x == n.value || has(n.right, x)));
                }
            } else {
                assert(spec_insert(node, value) == node);
            }
        },
    }
}

/// Insertion preserves the binary-search ordering invariant.
pub proof fn lemma_insert_wf(node: Option<Box<Node>>, value: i32)
    requires
        wf_node(node),
    ensures
        wf_node(spec_insert(node, value)),
    decreases node,
{
    match node {
        None => {
            assert forall|x: i32| has(None::<Box<Node>>, x) == false by {}
            assert(wf_node(spec_insert(node, value)));
        },
        Some(n) => {
            if value < n.value {
                lemma_insert_wf(n.left, value);
                lemma_insert_has(n.left, value);
                let sub = spec_insert(n.left, value);
                let r = spec_insert(node, value);
                assert(r == Some(Box::new(Node { value: n.value, left: sub, right: n.right })));
                assert forall|x: i32| has(sub, x) implies x < n.value by {
                    assert(has(sub, x) == (has(n.left, x) || x == value));
                }
                assert(wf_node(r));
            } else if value > n.value {
                lemma_insert_wf(n.right, value);
                lemma_insert_has(n.right, value);
                let sub = spec_insert(n.right, value);
                let r = spec_insert(node, value);
                assert(r == Some(Box::new(Node { value: n.value, left: n.left, right: sub })));
                assert forall|x: i32| has(sub, x) implies x > n.value by {
                    assert(has(sub, x) == (has(n.right, x) || x == value));
                }
                assert(wf_node(r));
            } else {
                assert(spec_insert(node, value) == node);
            }
        },
    }
}

/// A strictly ascending sequence: every earlier element is below every later
/// one, so no value occurs twice.
pub open spec fn sorted_strict(s: Seq<i32>) -> bool {
    forall|i: int, j: int| 0 <= i < j < s.len() ==> s[i] < s[j]
}

/// The tree obtained by inserting each element of `values` in turn.
pub open spec fn insert_all(node: Option<Box<Node>>, values: Seq<i32>) -> Option<Box<Node>>
    decreases values.len(),
{
    if values.len() == 0 {
        node
    } else {
        insert_all(spec_insert(node, values[0]), values.drop_first())
    }
}

/// A value occurs in the in-order sequence exactly when it occurs in the tree.
pub proof fn lemma_seq_has(node: Option<Box<Node>>)
    ensures
        forall|x: i32| seq_of(node).contains(x) <==> has(node, x),
    decreases node,
{
    broadcast use vstd::seq_lib::lemma_seq_concat_contains_all_elements;
    broadcast use vstd::seq_lib::lemma_seq_empty_contains_nothing;

    match node {
        None => {},
        Some(n) => {
            lemma_seq_has(n.left);
            lemma_seq_has(n.right);
            assert forall|x: i32| seq_of(node).contains(x) <==> has(node, x) by {
                assert(seq_of(node) == seq_of(n.left) + seq![n.value] + seq_of(n.right));
                assert(seq![n.value].contains(x) <==> x == n.value) by {
                    if x == n.value {
                        assert(seq![n.value][0] == x);
                    }
                }
                assert(has(node, x) == (has(n.left, x) || x == n.value || has(n.right, x)));
            }
        },
    }
}

/// On a tree that satisfies the ordering invariant, the in-order traversal is
/// strictly ascending: it enumerates the stored values in sorted order,
/// without repetition.
pub proof fn lemma_inorder_sorted(node: Option<Box<Node>>)
    requires
        wf_node(node),
    ensures
        sorted_strict(seq_of(node)),
    decreases node,
{
    match node {
        None => {},
        Some(n) => {
            lemma_inorder_sorted(n.left);
            lemma_inorder_sorted(n.right);
            lemma_seq_has(n.left);
            lemma_seq_has(n.right);
            let sl = seq_of(n.left);
            let sr = seq_of(n.right);
            let s = seq_of(node);
            let m = sl.len() as int;
            assert(s == sl + seq![n.value] + sr);
            assert forall|i: int, j: int| 0 <= i < j < s.len() implies s[i] < s[j] by {
                if i < m {
                    assert(s[i] == sl[i]);
                    assert(sl.contains(sl[i]));
                    assert(has(n.left, sl[i]));
                    assert(sl[i] < n.value);
                } else if i == m {
                    assert(s[i] == n.value);
                } else {
                    assert(s[i] == sr[i - m - 1]);
                    assert(sr.contains(sr[i - m - 1]));
                    assert(has(n.right, sr[i - m - 1]));
                    assert(s[i] > n.value);
                }
                if j < m {
                    assert(s[j] == sl[j]);
                    assert(sl.contains(sl[j]));
                    assert(has(n.left, sl[j]));
                    assert(sl[j] < n.value);
                } else if j == m {
                    assert(s[j] == n.value);
                } else {
                    assert(s[j] == sr[j - m - 1]);
                    assert(sr.contains(sr[j - m - 1]));
                    assert(has(n.right, sr[j - m - 1]));
                    assert(s[j] > n.value);
                }
            }
        },
    }
}

/// Inserting a value already present is a no-op: the tree — and with it the
/// in-order sequence, the height, and every search result — is unchanged.
pub proof fn lemma_insert_duplicate(node: Option<Box<Node>>, value: i32)
    requires
        wf_node(node),
        has(node, value),
    ensures
        spec_insert(node, value) == node,
    decreases node,
{
    match node {
        None => {},
        Some(n) => {
            if value < n.value {
                assert(has(n.right, value) == false);
                assert(has(n.left, value));
                lemma_insert_duplicate(n.left, value);
                assert(Box::new(Node { value: n.value, left: n.left, right: n.right }) == n);
            } else if value > n.value {
                assert(has(n.left, value) == false);
                assert(has(n.right, value));
                lemma_insert_duplicate(n.right, value);
                assert(Box::new(Node { value: n.value, left: n.left, right: n.right }) == n);
            }
        },
    }
}

/// The height never exceeds the number of stored values; it is zero exactly
/// on the empty tree, and one on a tree holding exactly one value.
pub proof fn lemma_height_len(node: Option<Box<Node>>)
    ensures
        height_of(node) <= seq_of(node).len(),
        height_of(node) == 0 <==> seq_of(node).len() == 0,
        seq_of(node).len() == 1 ==> height_of(node) == 1,
    decreases node,
{
    match node {
        None => {},
        Some(n) => {
            lemma_height_len(n.left);
            lemma_height_len(n.right);
            assert(seq_of(node).len() == seq_of(n.left).len() + 1 + seq_of(n.right).len());
        },
    }
}

/// A tree built by repeated insertion holds a value exactly when some
/// insertion supplied it.
pub proof fn lemma_insert_all_has(node: Option<Box<Node>>, values: Seq<i32>)
    ensures
        forall|x: i32| has(insert_all(node, values), x) <==> (has(node, x) || values.contains(x)),
    decreases values.len(),
{
    broadcast use vstd::seq_lib::lemma_seq_empty_contains_nothing;

    if values.len() == 0 {
        assert(values =~= Seq::<i32>::empty());
    } else {
        lemma_insert_has(node, values[0]);
        lemma_insert_all_has(spec_insert(node, values[0]), values.drop_first());
        assert forall|x: i32|
            has(insert_all(node, values), x) <==> (has(node, x) || values.contains(x)) by {
            assert(values.drop_first().contains(x) <==> (exists|i: int|
                1 <= i < values.len() && values[i] == x)) by {
                if values.drop_first().contains(x) {
                    let i = choose|i: int|
                        0 <= i < values.drop_first().len() && values.drop_first()[i] == x;
                    assert(values[i + 1] == x);
                }
                if exists|i: int| 1 <= i < values.len() && values[i] == x {
                    let i = choose|i: int| 1 <= i < values.len() && values[i] == x;
                    assert(values.drop_first()[i - 1] == x);
                }
            }
            assert(values.contains(x) <==> (x == values[0] || exists|i: int|
                1 <= i < values.len() && values[i] == x));
        }
    }
}

/// Repeated insertion preserves the ordering invariant.
pub proof fn lemma_insert_all_wf(node: Option<Box<Node>>, values: Seq<i32>)
    requires
        wf_node(node),
    ensures
        wf_node(insert_all(node, values)),
    decreases values.len(),
{
    if values.len() > 0 {
        lemma_insert_wf(node, values[0]);
        lemma_insert_all_wf(spec_insert(node, values[0]), values.drop_first());
    }
}

/// Inserting any sequence of values into an empty tree yields a tree whose
/// in-order traversal is the strictly ascending enumeration of exactly the
/// sequence's distinct values.
pub proof fn lemma_build_sorted_distinct(values: Seq<i32>)
    ensures
        sorted_strict(seq_of(insert_all(None, values))),
        forall|x: i32| seq_of(insert_all(None, values)).contains(x) <==> values.contains(x),
{
    let t = insert_all(None, values);
    lemma_insert_all_wf(None, values);
    lemma_inorder_sorted(t);
    lemma_insert_all_has(None, values);
    lemma_seq_has(t);
}

/// A right-leaning chain: no node has a left child.
spec fn right_chain(node: Option<Box<Node>>) -> bool
    decreases node,
{
    match node {
        None => true,
        Some(n) => n.left is None && right_chain(n.right),
    }
}

/// Inserting a value above everything stored in a right-leaning chain extends
/// the chain by one node, raising the height by exactly one.
proof fn lemma_insert_above_chain(node: Option<Box<Node>>, value: i32)
    requires
        wf_node(node),
        right_chain(node),
        forall|x: i32| has(node, x) ==> x < value,
    ensures
        right_chain(spec_insert(node, value)),
        height_of(spec_insert(node, value)) == height_of(node) + 1,
    decreases node,
{
    match node {
        None => {
            let r = spec_insert(node, value);
            assert(r == Some(Box::new(Node { value, left: None, right: None })));
            assert(height_of(r) == 1);
        },
        Some(n) => {
            assert(has(node, n.value));
            assert forall|x: i32| has(n.right, x) implies x < value by {
                assert(has(node, x));
            }
            lemma_insert_above_chain(n.right, value);
            let sub = spec_insert(n.right, value);
            let r = spec_insert(node, value);
            assert(r == Some(Box::new(Node { value: n.value, left: n.left, right: sub })));
            assert(height_of(n.left) == 0);
            assert(height_of(r) == 1 + height_of(sub));
            assert(height_of(node) == 1 + height_of(n.right));
        },
    }
}

/// Generalised induction step behind `lemma_increasing_inserts_height`:
/// feeding strictly ascending values, all above a right-leaning chain, grows
/// the height by one per value.
proof fn lemma_insert_all_chain(node: Option<Box<Node>>, values: Seq<i32>)
    requires
        wf_node(node),
        right_chain(node),
        sorted_strict(values),
        forall|x: i32, i: int| has(node, x) && 0 <= i < values.len() ==> x < values[i],
    ensures
        height_of(insert_all(node, values)) == height_of(node) + values.len(),
    decreases values.len(),
{
    if values.len() > 0 {
        let v0 = values[0];
        let next = spec_insert(node, v0);
        lemma_insert_above_chain(node, v0);
        lemma_insert_wf(node, v0);
        lemma_insert_has(node, v0);
        let rest = values.drop_first();
        assert forall|x: i32, i: int|
            has(next, x) && 0 <= i < rest.len() implies x < rest[i] by {
            assert(rest[i] == values[i + 1]);
            assert(has(node, x) || x == v0);
        }
        lemma_insert_all_chain(next, rest);
    }
}

/// Inserting strictly increasing values into an empty tree builds a
/// degenerate right-leaning chain: the height equals the number of values
/// inserted (all distinct, being strictly increasing).
pub proof fn lemma_increasing_inserts_height(values: Seq<i32>)
    requires
        sorted_strict(values),
    ensures
        height_of(insert_all(None, values)) == values.len(),
{
    lemma_insert_all_chain(None, values);
}

} // verus!
