//! The subtree type of the ordered map: a possibly absent node that owns its
//! two children, and the recursive algorithms on it.
//!
//! A subtree is modelled by its in-order sequence of entries (`entries`, also
//! written `@`). The functions that rebuild a subtree say two things of what
//! they return: which subtree it is, node for node (`inserted`, `removed`,
//! `repaired` and the rotations), and what that means for the entries, the
//! order of the keys and the balance of the heights.

use vstd::prelude::*;
use crate::entries::{
    ascending, entry_of, holds, keys_of, lemma_ascending_split, lemma_empty,
    lemma_insert_then_remove, lemma_key_above, lemma_key_below, lemma_key_here, lemma_regroup,
    lemma_regroup_two, lemma_with_entry, lemma_without, value_of, with_entry, without,
};
use crate::height::{lemma_min_size_grows, lemma_min_size_power, min_size, power};
use crate::order::{greater, lemma_strict_order, less, lt, total_order, Probe};

verus! {

/// One entry of the tree with its two subtrees, and the number of entries
/// and of levels below and including it.
pub struct Node<K, V> {
    key: K,
    val: V,
    left: NodeRef<K, V>,
    right: NodeRef<K, V>,
    size: usize,
    height: usize,
}

/// A subtree: a node, or nothing.
pub enum NodeRef<K, V> {
    Node(Box<Node<K, V>>),
    Nil,
}

impl<K, V> Node<K, V> {
    /// The entries of this node's subtree, in order: those of the left
    /// subtree, the node's own, those of the right subtree.
    pub closed spec fn entries(self) -> Seq<(K, V)>
        decreases self,
    {
        self.left.entries().push((self.key, self.val)) + self.right.entries()
    }

    /// The keys of this node's subtree, the node's own first.
    pub closed spec fn preorder(self) -> Seq<K>
        decreases self,
    {
        seq![self.key] + self.left.preorder() + self.right.preorder()
    }

    /// The keys of this node's subtree, the node's own last.
    pub closed spec fn postorder(self) -> Seq<K>
        decreases self,
    {
        (self.left.postorder() + self.right.postorder()).push(self.key)
    }

    /// The number of nodes on the longest path from this node down to a leaf.
    pub closed spec fn levels(self) -> nat
        decreases self,
    {
        1 + if self.left.levels() >= self.right.levels() {
            self.left.levels()
        } else {
            self.right.levels()
        }
    }

    /// The size that this node records.
    pub closed spec fn size_spec(self) -> nat {
        self.size as nat
    }

    /// The height that this node records.
    pub closed spec fn height_spec(self) -> nat {
        self.height as nat
    }

    /// The entry of this node.
    pub closed spec fn entry_spec(self) -> (K, V) {
        (self.key, self.val)
    }

    /// Every node of this subtree records the true size and height of its
    /// own subtree.
    pub closed spec fn cached(self) -> bool
        decreases self,
    {
        &&& self.left.cached()
        &&& self.right.cached()
        &&& self.size == self.entries().len()
        &&& self.height == self.levels()
    }

    /// At every node of this subtree the two children differ in height by at
    /// most one.
    pub closed spec fn balanced(self) -> bool
        decreases self,
    {
        &&& self.left.balanced()
        &&& self.right.balanced()
        &&& self.left.levels() <= self.right.levels() + 1
        &&& self.right.levels() <= self.left.levels() + 1
    }
}

impl<K, V> NodeRef<K, V> {
    /// The entries of the subtree in ascending position: the in-order
    /// traversal.
    pub open spec fn entries(self) -> Seq<(K, V)>
        decreases self,
    {
        match self {
            NodeRef::Nil => Seq::empty(),
            NodeRef::Node(n) => n.entries(),
        }
    }

    /// The keys of the subtree, each node before its children.
    pub open spec fn preorder(self) -> Seq<K>
        decreases self,
    {
        match self {
            NodeRef::Nil => Seq::empty(),
            NodeRef::Node(n) => n.preorder(),
        }
    }

    /// The keys of the subtree, each node after its children.
    pub open spec fn postorder(self) -> Seq<K>
        decreases self,
    {
        match self {
            NodeRef::Nil => Seq::empty(),
            NodeRef::Node(n) => n.postorder(),
        }
    }

    /// The true height: the number of nodes on the longest path from the
    /// root to a leaf, 0 for the empty subtree.
    pub open spec fn levels(self) -> nat
        decreases self,
    {
        match self {
            NodeRef::Nil => 0,
            NodeRef::Node(n) => n.levels(),
        }
    }

    /// The size that the root records, 0 for the empty subtree.
    pub open spec fn size_spec(self) -> nat {
        match self {
            NodeRef::Nil => 0,
            NodeRef::Node(n) => n.size_spec(),
        }
    }

    /// The height that the root records, 0 for the empty subtree.
    pub open spec fn height_spec(self) -> nat {
        match self {
            NodeRef::Nil => 0,
            NodeRef::Node(n) => n.height_spec(),
        }
    }

    /// The entry at the root.
    pub open spec fn root(self) -> Option<(K, V)> {
        match self {
            NodeRef::Nil => None,
            NodeRef::Node(n) => Some(n.entry_spec()),
        }
    }

    /// Every node records the true size and height of its subtree.
    pub open spec fn cached(self) -> bool
        decreases self,
    {
        match self {
            NodeRef::Nil => true,
            NodeRef::Node(n) => n.cached(),
        }
    }

    /// The height balance: at every node the two children differ in height
    /// by at most one.
    pub open spec fn balanced(self) -> bool
        decreases self,
    {
        match self {
            NodeRef::Nil => true,
            NodeRef::Node(n) => n.balanced(),
        }
    }

    /// How much taller the left child of the root is than the right one.
    pub closed spec fn lean(self) -> int {
        match self {
            NodeRef::Nil => 0,
            NodeRef::Node(n) => n.left.levels() - n.right.levels(),
        }
    }

    /// The node made of an entry and two subtrees, with the size and height
    /// that follow from what the subtrees record.
    #[verifier::opaque]
    pub closed spec fn join(left: Self, key: K, val: V, right: Self) -> Self {
        NodeRef::Node(
            Box::new(
                Node {
                    key,
                    val,
                    left,
                    right,
                    size: (left.size_spec() + right.size_spec() + 1) as usize,
                    height: (1 + if left.height_spec() >= right.height_spec() {
                        left.height_spec()
                    } else {
                        right.height_spec()
                    }) as usize,
                },
            ),
        )
    }

    /// The rotation to the left of the node made of `left`, `(key, val)` and
    /// `right`, for a right side that is too tall. Where the right child's
    /// own right side is strictly the taller, the right child becomes the
    /// root; else the right child's left child does.
    #[verifier::opaque]
    pub closed spec fn rotated_left(left: Self, key: K, val: V, right: Self) -> Self {
        match right {
            NodeRef::Nil => Self::join(left, key, val, right),
            NodeRef::Node(bt) => if bt.right.height_spec() > bt.left.height_spec() {
                Self::join(Self::join(left, key, val, bt.left), bt.key, bt.val, bt.right)
            } else {
                match bt.left {
                    NodeRef::Nil => Self::join(left, key, val, right),
                    NodeRef::Node(ga) => Self::join(
                        Self::join(left, key, val, ga.left),
                        ga.key,
                        ga.val,
                        Self::join(ga.right, bt.key, bt.val, bt.right),
                    ),
                }
            },
        }
    }

    /// The rotation to the right: the mirror image of `rotated_left`, for a
    /// left side that is too tall.
    #[verifier::opaque]
    pub closed spec fn rotated_right(left: Self, key: K, val: V, right: Self) -> Self {
        match left {
            NodeRef::Nil => Self::join(left, key, val, right),
            NodeRef::Node(bt) => if bt.left.height_spec() > bt.right.height_spec() {
                Self::join(bt.left, bt.key, bt.val, Self::join(bt.right, key, val, right))
            } else {
                match bt.right {
                    NodeRef::Nil => Self::join(left, key, val, right),
                    NodeRef::Node(ga) => Self::join(
                        Self::join(bt.left, bt.key, bt.val, ga.left),
                        ga.key,
                        ga.val,
                        Self::join(ga.right, key, val, right),
                    ),
                }
            },
        }
    }

    /// The node made of `left`, `(key, val)` and `right`, rotated where one
    /// side is taller than the other by more than one.
    #[verifier::opaque]
    pub closed spec fn repaired(left: Self, key: K, val: V, right: Self) -> Self {
        if right.height_spec() > left.height_spec() + 1 {
            Self::rotated_left(left, key, val, right)
        } else if left.height_spec() > right.height_spec() + 1 {
            Self::rotated_right(left, key, val, right)
        } else {
            Self::join(left, key, val, right)
        }
    }

    /// A rotation of a node with these two children meets a tie that it
    /// does not mend: one child is taller than the other by more than one,
    /// its own two children are equally tall, and of its inner child's
    /// children the outer one is the shorter. The rotation then leaves a
    /// node whose children differ in height by two.
    #[verifier::opaque]
    pub closed spec fn tie(left: Self, right: Self) -> bool {
        if right.levels() > left.levels() + 1 {
            &&& right matches NodeRef::Node(bt)
            &&& bt.left.levels() == bt.right.levels()
            &&& bt.left matches NodeRef::Node(ga)
            &&& ga.right.levels() < ga.left.levels()
        } else if left.levels() > right.levels() + 1 {
            &&& left matches NodeRef::Node(bt)
            &&& bt.left.levels() == bt.right.levels()
            &&& bt.right matches NodeRef::Node(ga)
            &&& ga.left.levels() < ga.right.levels()
        } else {
            false
        }
    }
}

impl<K, V> View for NodeRef<K, V> {
    type V = Seq<(K, V)>;

    /// The view of a subtree is its in-order traversal.
    open spec fn view(&self) -> Seq<(K, V)> {
        self.entries()
    }
}

impl<K: Ord, V> NodeRef<K, V> {
    /// Well-formedness: the keys ascend from left to right, and every node
    /// records the true size and height of its subtree.
    pub open spec fn wf(self) -> bool {
        &&& self.cached()
        &&& self is Nil || ascending(self.entries())
    }

    /// The in-order traversal of a well-formed subtree has its keys in
    /// strictly ascending order.
    pub proof fn lemma_ascending(self)
        requires
            self.wf(),
        ensures
            ascending(self@),
    {
        if self is Nil {
            lemma_empty::<K, V>(arbitrary(), arbitrary());
        }
    }
}

impl<K, V> NodeRef<K, V> {
    /// A subtree has at most as many levels as entries, and where it
    /// records true sizes and heights, its root does.
    pub proof fn lemma_levels_le_len(t: Self)
        ensures
            t.levels() <= t@.len(),
            t.cached() ==> t.size_spec() == t@.len() && t.height_spec() == t.levels(),
        decreases t,
    {
        match t {
            NodeRef::Nil => {},
            NodeRef::Node(n) => {
                Self::lemma_levels_le_len(n.left);
                Self::lemma_levels_le_len(n.right);
            },
        }
    }

    /// What `join` makes, in terms of its parts.
    pub proof fn lemma_join(left: Self, key: K, val: V, right: Self)
        ensures
            Self::join(left, key, val, right) is Node,
            Self::join(left, key, val, right).root() == Some((key, val)),
            Self::join(left, key, val, right)@ == left@.push((key, val)) + right@,
            Self::join(left, key, val, right).levels() == 1 + if left.levels()
                >= right.levels() {
                left.levels()
            } else {
                right.levels()
            },
            Self::join(left, key, val, right).lean() == left.levels() - right.levels(),
            Self::join(left, key, val, right).balanced() <==> left.balanced() && right.balanced()
                && left.levels() <= right.levels() + 1 && right.levels() <= left.levels() + 1,
            left.cached() && right.cached() && left@.len() + right@.len() < usize::MAX
                ==> Self::join(left, key, val, right).cached(),
    {
        reveal(NodeRef::join);
        Self::lemma_levels_le_len(left);
        Self::lemma_levels_le_len(right);
    }

    /// One step of the definitions, for a node that is at hand.
    proof fn lemma_node(n: Node<K, V>)
        ensures
            NodeRef::Node(Box::new(n))@ == n.left@.push((n.key, n.val)) + n.right@,
            NodeRef::Node(Box::new(n)).levels() == 1 + if n.left.levels() >= n.right.levels() {
                n.left.levels()
            } else {
                n.right.levels()
            },
            NodeRef::Node(Box::new(n)).lean() == n.left.levels() - n.right.levels(),
            NodeRef::Node(Box::new(n)).balanced() <==> n.left.balanced() && n.right.balanced()
                && n.left.levels() <= n.right.levels() + 1 && n.right.levels() <= n.left.levels()
                + 1,
            NodeRef::Node(Box::new(n)).cached() ==> n.left.cached() && n.right.cached()
                && n.size == n.left@.len() + n.right@.len() + 1 && n.height == NodeRef::Node(
                Box::new(n),
            ).levels() && n.left.size_spec() == n.left@.len() && n.right.size_spec()
                == n.right@.len() && n.left.height_spec() == n.left.levels()
                && n.right.height_spec() == n.right.levels() && NodeRef::Node(Box::new(n))
                == Self::join(n.left, n.key, n.val, n.right),
    {
        reveal(NodeRef::join);
        Self::lemma_levels_le_len(n.left);
        Self::lemma_levels_le_len(n.right);
    }

    /// A rotation meets a tie only where one side is taller than the other
    /// by more than one and leans neither way.
    proof fn lemma_tie_leans(left: Self, right: Self)
        ensures
            Self::tie(left, right) ==> left.levels() > right.levels() + 1 && left.lean() == 0
                || right.levels() > left.levels() + 1 && right.lean() == 0,
    {
        reveal(NodeRef::tie);
    }

    /// A rotation to the left keeps the entries and their order.
    proof fn lemma_rotated_left_entries(left: Self, key: K, val: V, right: Self)
        ensures
            Self::rotated_left(left, key, val, right)@ == left@.push((key, val)) + right@,
            Self::rotated_left(left, key, val, right) is Node,
    {
        reveal(NodeRef::rotated_left);
        Self::lemma_join(left, key, val, right);
        if let NodeRef::Node(bt) = right {
            Self::lemma_node(*bt);
            if bt.right.height_spec() > bt.left.height_spec() {
                Self::lemma_join(left, key, val, bt.left);
                Self::lemma_join(Self::join(left, key, val, bt.left), bt.key, bt.val, bt.right);
                lemma_regroup(left@, (key, val), bt.left@, (bt.key, bt.val), bt.right@);
            } else if let NodeRef::Node(ga) = bt.left {
                Self::lemma_node(*ga);
                let al = Self::join(left, key, val, ga.left);
                let br = Self::join(ga.right, bt.key, bt.val, bt.right);
                Self::lemma_join(left, key, val, ga.left);
                Self::lemma_join(ga.right, bt.key, bt.val, bt.right);
                Self::lemma_join(al, ga.key, ga.val, br);
                lemma_regroup_two(
                    left@,
                    (key, val),
                    ga.left@,
                    (ga.key, ga.val),
                    ga.right@,
                    (bt.key, bt.val),
                    bt.right@,
                );
            }
        }
    }

    /// A rotation to the right keeps the entries and their order.
    proof fn lemma_rotated_right_entries(left: Self, key: K, val: V, right: Self)
        ensures
            Self::rotated_right(left, key, val, right)@ == left@.push((key, val)) + right@,
            Self::rotated_right(left, key, val, right) is Node,
    {
        reveal(NodeRef::rotated_right);
        Self::lemma_join(left, key, val, right);
        if let NodeRef::Node(bt) = left {
            Self::lemma_node(*bt);
            if bt.left.height_spec() > bt.right.height_spec() {
                Self::lemma_join(bt.right, key, val, right);
                Self::lemma_join(bt.left, bt.key, bt.val, Self::join(bt.right, key, val, right));
                lemma_regroup(bt.left@, (bt.key, bt.val), bt.right@, (key, val), right@);
            } else if let NodeRef::Node(ga) = bt.right {
                Self::lemma_node(*ga);
                let bl = Self::join(bt.left, bt.key, bt.val, ga.left);
                let al = Self::join(ga.right, key, val, right);
                Self::lemma_join(bt.left, bt.key, bt.val, ga.left);
                Self::lemma_join(ga.right, key, val, right);
                Self::lemma_join(bl, ga.key, ga.val, al);
                lemma_regroup_two(
                    bt.left@,
                    (bt.key, bt.val),
                    ga.left@,
                    (ga.key, ga.val),
                    ga.right@,
                    (key, val),
                    right@,
                );
            }
        }
    }

    /// The shape that a rotation to the left gives.
    proof fn lemma_rotated_left(left: Self, key: K, val: V, right: Self)
        requires
            left.cached(),
            right.cached(),
            left@.len() + right@.len() < usize::MAX,
            right.levels() >= left.levels() + 2,
        ensures
            Self::rotated_left(left, key, val, right).cached(),
            left.balanced() && right.balanced() && right.levels() == left.levels() + 2 ==> {
                let res = Self::rotated_left(left, key, val, right);
                &&& res.balanced() <==> !Self::tie(left, right)
                &&& right.lean() != 0 ==> res.levels() == right.levels()
                &&& right.lean() == 0 ==> res.levels() == right.levels() + 1
            },
    {
        reveal(NodeRef::rotated_left);
        reveal(NodeRef::tie);
        Self::lemma_levels_le_len(left);
        let bt = right->0;
        Self::lemma_node(*bt);
        if bt.right.height_spec() > bt.left.height_spec() {
            let al = Self::join(left, key, val, bt.left);
            Self::lemma_join(left, key, val, bt.left);
            Self::lemma_levels_le_len(al);
            Self::lemma_join(al, bt.key, bt.val, bt.right);
        } else {
            let ga = bt.left->0;
            Self::lemma_node(*ga);
            let al = Self::join(left, key, val, ga.left);
            let br = Self::join(ga.right, bt.key, bt.val, bt.right);
            Self::lemma_join(left, key, val, ga.left);
            Self::lemma_join(ga.right, bt.key, bt.val, bt.right);
            Self::lemma_levels_le_len(al);
            Self::lemma_levels_le_len(br);
            Self::lemma_join(al, ga.key, ga.val, br);
        }
    }

    /// The shape that a rotation to the right gives.
    proof fn lemma_rotated_right(left: Self, key: K, val: V, right: Self)
        requires
            left.cached(),
            right.cached(),
            left@.len() + right@.len() < usize::MAX,
            left.levels() >= right.levels() + 2,
        ensures
            Self::rotated_right(left, key, val, right).cached(),
            left.balanced() && right.balanced() && left.levels() == right.levels() + 2 ==> {
                let res = Self::rotated_right(left, key, val, right);
                &&& res.balanced() <==> !Self::tie(left, right)
                &&& left.lean() != 0 ==> res.levels() == left.levels()
                &&& left.lean() == 0 ==> res.levels() == left.levels() + 1
            },
    {
        reveal(NodeRef::rotated_right);
        reveal(NodeRef::tie);
        Self::lemma_levels_le_len(right);
        let bt = left->0;
        Self::lemma_node(*bt);
        if bt.left.height_spec() > bt.right.height_spec() {
            let al = Self::join(bt.right, key, val, right);
            Self::lemma_join(bt.right, key, val, right);
            Self::lemma_levels_le_len(al);
            Self::lemma_join(bt.left, bt.key, bt.val, al);
        } else {
            let ga = bt.right->0;
            Self::lemma_node(*ga);
            let bl = Self::join(bt.left, bt.key, bt.val, ga.left);
            let al = Self::join(ga.right, key, val, right);
            Self::lemma_join(bt.left, bt.key, bt.val, ga.left);
            Self::lemma_join(ga.right, key, val, right);
            Self::lemma_levels_le_len(bl);
            Self::lemma_levels_le_len(al);
            Self::lemma_join(bl, ga.key, ga.val, al);
        }
    }

    /// What `repaired` makes of two subtrees that record their true sizes and
    /// heights: the same entries in the same order, with true sizes and
    /// heights again, and the plain `join` where the two are within one
    /// level of each other.
    pub proof fn lemma_repaired(left: Self, key: K, val: V, right: Self)
        requires
            left.cached(),
            right.cached(),
            left@.len() + right@.len() < usize::MAX,
        ensures
            Self::repaired(left, key, val, right) is Node,
            Self::repaired(left, key, val, right).cached(),
            Self::repaired(left, key, val, right)@ == left@.push((key, val)) + right@,
            left.levels() <= right.levels() + 1 && right.levels() <= left.levels() + 1
                ==> Self::repaired(left, key, val, right) == Self::join(left, key, val, right),
    {
        reveal(NodeRef::repaired);
        Self::lemma_levels_le_len(left);
        Self::lemma_levels_le_len(right);
        if right.height_spec() > left.height_spec() + 1 {
            Self::lemma_rotated_left_entries(left, key, val, right);
            Self::lemma_rotated_left(left, key, val, right);
        } else if left.height_spec() > right.height_spec() + 1 {
            Self::lemma_rotated_right_entries(left, key, val, right);
            Self::lemma_rotated_right(left, key, val, right);
        } else {
            Self::lemma_join(left, key, val, right);
        }
    }

    /// The height and the balance of what `repaired` makes of two balanced
    /// subtrees that differ in height by at most two: it is balanced unless
    /// the rotation meets a tie; it is one level taller than the taller of
    /// the two, but only as tall where they differ by two and the taller one
    /// leans to a side.
    pub proof fn lemma_repaired_shape(left: Self, key: K, val: V, right: Self)
        requires
            left.cached(),
            right.cached(),
            left@.len() + right@.len() < usize::MAX,
            left.balanced(),
            right.balanced(),
            left.levels() <= right.levels() + 2,
            right.levels() <= left.levels() + 2,
        ensures
            Self::repaired(left, key, val, right).balanced() <==> !Self::tie(left, right),
            left.levels() <= right.levels() + 1 && right.levels() <= left.levels() + 1 ==> {
                &&& Self::repaired(left, key, val, right).levels() == 1 + if left.levels()
                    >= right.levels() {
                    left.levels()
                } else {
                    right.levels()
                }
                &&& Self::repaired(left, key, val, right).lean() == left.levels()
                    - right.levels()
            },
            left.levels() == right.levels() + 2 ==> Self::repaired(left, key, val, right).levels()
                == left.levels() + if left.lean() != 0 {
                0int
            } else {
                1int
            },
            right.levels() == left.levels() + 2 ==> Self::repaired(left, key, val, right).levels()
                == right.levels() + if right.lean() != 0 {
                0int
            } else {
                1int
            },
    {
        reveal(NodeRef::repaired);
        Self::lemma_levels_le_len(left);
        Self::lemma_levels_le_len(right);
        Self::lemma_tie_leans(left, right);
        if right.height_spec() > left.height_spec() + 1 {
            Self::lemma_rotated_left(left, key, val, right);
        } else if left.height_spec() > right.height_spec() + 1 {
            Self::lemma_rotated_right(left, key, val, right);
        } else {
            Self::lemma_join(left, key, val, right);
        }
    }

    /// The step of an insertion: one of the two balanced children `left0`
    /// and `right0` of a balanced node has given way to a balanced subtree
    /// that is at most one level taller, and that leans to a side where it
    /// is taller and took the place of a node. The node repaired over the
    /// new children is then balanced, and of it the same holds.
    proof fn lemma_repaired_grown(
        left0: Self,
        right0: Self,
        left: Self,
        right: Self,
        key: K,
        val: V,
    )
        requires
            left0.levels() <= right0.levels() + 1,
            right0.levels() <= left0.levels() + 1,
            left == left0 || right == right0,
            left.cached(),
            right.cached(),
            left@.len() + right@.len() < usize::MAX,
            left.balanced(),
            right.balanced(),
            left0.levels() <= left.levels() <= left0.levels() + 1,
            right0.levels() <= right.levels() <= right0.levels() + 1,
            left.levels() == left0.levels() + 1 ==> left0 is Nil || left.lean() != 0,
            right.levels() == right0.levels() + 1 ==> right0 is Nil || right.lean() != 0,
        ensures
            ({
                let res = Self::repaired(left, key, val, right);
                let top = 1 + if left0.levels() >= right0.levels() {
                    left0.levels()
                } else {
                    right0.levels()
                };
                &&& res.balanced()
                &&& res.levels() == top || (res.levels() == top + 1 && res.lean() != 0)
            }),
    {
        Self::lemma_repaired_shape(left, key, val, right);
        Self::lemma_tie_leans(left, right);
    }

    /// The step of a removal: one of the two balanced children `left0` and
    /// `right0` of a balanced node has given way to a subtree that is at most
    /// one level lower, and that is balanced unless `ties` says that a
    /// rotation below met a tie, in which case it is as tall as before. The
    /// node repaired over the new children is then balanced exactly when
    /// neither that rotation nor its own met a tie, and it is at most one
    /// level lower than the node was.
    proof fn lemma_repaired_lower(
        left0: Self,
        right0: Self,
        left: Self,
        right: Self,
        key: K,
        val: V,
        ties: bool,
    )
        requires
            left0.balanced(),
            right0.balanced(),
            left0.levels() <= right0.levels() + 1,
            right0.levels() <= left0.levels() + 1,
            left == left0 || right == right0,
            left.cached(),
            right.cached(),
            left@.len() + right@.len() < usize::MAX,
            left.levels() <= left0.levels() <= left.levels() + 1,
            right.levels() <= right0.levels() <= right.levels() + 1,
            ties <==> !(left.balanced() && right.balanced()),
            ties ==> left.levels() == left0.levels() && right.levels() == right0.levels(),
        ensures
            ({
                let res = Self::repaired(left, key, val, right);
                let top = 1 + if left0.levels() >= right0.levels() {
                    left0.levels()
                } else {
                    right0.levels()
                };
                &&& res.balanced() <==> !(ties || Self::tie(left, right))
                &&& res.levels() <= top <= res.levels() + 1
                &&& ties || Self::tie(left, right) ==> res.levels() == top
            }),
    {
        Self::lemma_tie_leans(left, right);
        if ties {
            Self::lemma_repaired(left, key, val, right);
            Self::lemma_join(left, key, val, right);
        } else {
            Self::lemma_repaired_shape(left, key, val, right);
        }
    }
}

impl<K, V> NodeRef<K, V> {
    /// A subtree of the one entry `(key, val)`.
    pub fn new(key: K, val: V) -> (res: Self)
        ensures
            res == Self::join(NodeRef::Nil, key, val, NodeRef::Nil),
            res@ == seq![(key, val)],
            res.cached(),
            res.balanced(),
            res.size_spec() == 1,
            res.height_spec() == 1,
    {
        let res = NodeRef::Node(
            Box::new(
                Node { key, val, left: NodeRef::Nil, right: NodeRef::Nil, size: 1, height: 1 },
            ),
        );
        proof {
            reveal(NodeRef::join);
            Self::lemma_join(NodeRef::Nil, key, val, NodeRef::Nil);
            Self::lemma_levels_le_len(res);
            assert(res@ =~= seq![(key, val)]);
        }
        res
    }

    /// Whether the subtree is empty.
    pub fn is_nil(&self) -> (res: bool)
        ensures
            res == (*self is Nil),
    {
        match self {
            NodeRef::Nil => true,
            _ => false,
        }
    }

    /// Moves the subtree out and leaves the empty one in its place.
    pub fn take(&mut self) -> (res: Self)
        ensures
            res == *old(self),
            *final(self) is Nil,
        no_unwind
    {
        let mut n = NodeRef::Nil;
        std::mem::swap(&mut n, self);
        return n;
    }

    /// The node of a subtree that is not empty.
    fn unwrap(self) -> (res: Box<Node<K, V>>)
        requires
            self is Node,
        ensures
            self == NodeRef::Node(res),
    {
        if let NodeRef::Node(n) = self {
            return n;
        } else {
            vstd::pervasive::unreached()
        }
    }

    /// The key at the root.
    pub fn key(&self) -> (res: Option<&K>)
        ensures
            res == match self.root() {
                Some(e) => Some(&e.0),
                None => None,
            },
    {
        if let NodeRef::Node(n) = self {
            Some(&n.key)
        } else {
            None
        }
    }

    /// The value at the root.
    pub fn val(&self) -> (res: Option<&V>)
        ensures
            res == match self.root() {
                Some(e) => Some(&e.1),
                None => None,
            },
    {
        if let NodeRef::Node(n) = self {
            Some(&n.val)
        } else {
            None
        }
    }

    /// The entry at the root.
    pub fn entry(&self) -> (res: Option<(&K, &V)>)
        ensures
            res == match self.root() {
                Some(e) => Some((&e.0, &e.1)),
                None => None,
            },
    {
        if let NodeRef::Node(n) = self {
            Some((&n.key, &n.val))
        } else {
            None
        }
    }

    /// The number of entries that the root records: in a subtree that
    /// records true sizes, the number of its entries.
    pub fn size(&self) -> (res: usize)
        ensures
            res == self.size_spec(),
            self.cached() ==> res == self@.len(),
    {
        proof {
            Self::lemma_levels_le_len(*self);
        }
        if let NodeRef::Node(n) = self {
            n.size
        } else {
            0
        }
    }

    /// The height that the root records: in a subtree that records true
    /// heights, the number of its levels.
    pub fn height(&self) -> (res: usize)
        ensures
            res == self.height_spec(),
            self.cached() ==> res == self.levels(),
    {
        proof {
            Self::lemma_levels_le_len(*self);
        }
        if let NodeRef::Node(n) = self {
            n.height
        } else {
            0
        }
    }

    /// Records in `n` the size and the height that follow from what its
    /// children record.
    fn update(n: &mut Box<Node<K, V>>)
        requires
            old(n).left.size_spec() + old(n).right.size_spec() < usize::MAX,
            old(n).left.height_spec() < usize::MAX,
            old(n).right.height_spec() < usize::MAX,
        ensures
            NodeRef::Node(*final(n)) == Self::join(
                old(n).left,
                old(n).key,
                old(n).val,
                old(n).right,
            ),
    {
        proof {
            reveal(NodeRef::join);
        }
        n.size = n.left.size() + n.right.size() + 1;
        n.height = n.left.height().max(n.right.height()) + 1;
    }

    /// The subtree of `n` with its size and height recorded anew, rotated
    /// where one child is taller than the other by more than one.
    fn repair(mut n: Box<Node<K, V>>) -> (res: Self)
        requires
            n.left.cached(),
            n.right.cached(),
            n.left@.len() + n.right@.len() < usize::MAX,
        ensures
            res == Self::repaired(n.left, n.key, n.val, n.right),
    {
        proof {
            reveal(NodeRef::repaired);
            Self::lemma_levels_le_len(n.left);
            Self::lemma_levels_le_len(n.right);
        }
        let (left_height, right_height): (usize, usize) = (n.left.height(), n.right.height());

        if right_height > left_height + 1 {
            NodeRef::left_rotate(n)
        } else if left_height > right_height + 1 {
            NodeRef::right_rotate(n)
        } else {
            NodeRef::update(&mut n);
            NodeRef::Node(n)
        }
    }

    /// Rotates `al` to the left, for a right child that is too tall.
    fn left_rotate(mut al: Box<Node<K, V>>) -> (res: Self)
        requires
            al.left.cached(),
            al.right.cached(),
            al.left@.len() + al.right@.len() < usize::MAX,
            al.right.levels() >= 2,
        ensures
            res == Self::rotated_left(al.left, al.key, al.val, al.right),
    {
        proof {
            reveal(NodeRef::rotated_left);
            reveal(NodeRef::join);
            Self::lemma_levels_le_len(al.left);
            Self::lemma_levels_le_len(al.right);
        }
        let mut bt = al.right.unwrap();
        proof {
            Self::lemma_node(*bt);
        }

        if bt.right.height() > bt.left.height() {
            al.right = bt.left;
            NodeRef::update(&mut al);
            proof {
                Self::lemma_join(al.left, al.key, al.val, al.right);
                Self::lemma_levels_le_len(NodeRef::Node(al));
            }
            bt.left = NodeRef::Node(al);
            NodeRef::update(&mut bt);
            return NodeRef::Node(bt);
        } else {
            let mut ga = bt.left.unwrap();
            proof {
                Self::lemma_node(*ga);
            }
            al.right = ga.left;
            NodeRef::update(&mut al);
            bt.left = ga.right;
            NodeRef::update(&mut bt);
            proof {
                Self::lemma_join(al.left, al.key, al.val, al.right);
                Self::lemma_join(bt.left, bt.key, bt.val, bt.right);
                Self::lemma_levels_le_len(NodeRef::Node(al));
                Self::lemma_levels_le_len(NodeRef::Node(bt));
            }
            ga.left = NodeRef::Node(al);
            ga.right = NodeRef::Node(bt);
            NodeRef::update(&mut ga);
            return NodeRef::Node(ga);
        }
    }

    /// Rotates `al` to the right, for a left child that is too tall.
    fn right_rotate(mut al: Box<Node<K, V>>) -> (res: Self)
        requires
            al.left.cached(),
            al.right.cached(),
            al.left@.len() + al.right@.len() < usize::MAX,
            al.left.levels() >= 2,
        ensures
            res == Self::rotated_right(al.left, al.key, al.val, al.right),
    {
        proof {
            reveal(NodeRef::rotated_right);
            reveal(NodeRef::join);
            Self::lemma_levels_le_len(al.left);
            Self::lemma_levels_le_len(al.right);
        }
        let mut bt = al.left.unwrap();
        proof {
            Self::lemma_node(*bt);
        }

        if bt.left.height() > bt.right.height() {
            al.left = bt.right;
            NodeRef::update(&mut al);
            proof {
                Self::lemma_join(al.left, al.key, al.val, al.right);
                Self::lemma_levels_le_len(NodeRef::Node(al));
            }
            bt.right = NodeRef::Node(al);
            NodeRef::update(&mut bt);
            return NodeRef::Node(bt);
        } else {
            let mut ga = bt.right.unwrap();
            proof {
                Self::lemma_node(*ga);
            }
            al.left = ga.right;
            NodeRef::update(&mut al);
            bt.right = ga.left;
            NodeRef::update(&mut bt);
            proof {
                Self::lemma_join(al.left, al.key, al.val, al.right);
                Self::lemma_join(bt.left, bt.key, bt.val, bt.right);
                Self::lemma_levels_le_len(NodeRef::Node(al));
                Self::lemma_levels_le_len(NodeRef::Node(bt));
            }
            ga.right = NodeRef::Node(al);
            ga.left = NodeRef::Node(bt);
            NodeRef::update(&mut ga);
            return NodeRef::Node(ga);
        }
    }
}

impl<K: Ord, V> NodeRef<K, V> {
    /// The two children of a well-formed node are well-formed.
    proof fn lemma_wf_children(n: Node<K, V>)
        requires
            NodeRef::Node(Box::new(n)).wf(),
        ensures
            n.left.wf(),
            n.right.wf(),
            ascending(n.left@),
            ascending(n.right@),
            NodeRef::Node(Box::new(n))@.len() == n.left@.len() + n.right@.len() + 1,
    {
        Self::lemma_node(n);
        lemma_ascending_split(n.left@, (n.key, n.val), n.right@);
    }

    /// The subtree that `insert` returns: the new leaf where the subtree is
    /// empty; the root with the new value where the key is the root's;
    /// else the root with the key inserted on the side where it belongs,
    /// repaired.
    pub closed spec fn inserted(self, key: K, val: V) -> Self
        decreases self,
    {
        match self {
            NodeRef::Nil => Self::join(NodeRef::Nil, key, val, NodeRef::Nil),
            NodeRef::Node(n) => if lt(key, n.key) {
                Self::repaired(n.left.inserted(key, val), n.key, n.val, n.right)
            } else if lt(n.key, key) {
                Self::repaired(n.left, n.key, n.val, n.right.inserted(key, val))
            } else {
                NodeRef::Node(
                    Box::new(
                        Node {
                            key: n.key,
                            val,
                            left: n.left,
                            right: n.right,
                            size: n.size,
                            height: n.height,
                        },
                    ),
                )
            },
        }
    }

    /// Insertion into a well-formed subtree gives a well-formed subtree
    /// whose entries are the old ones with `key` bound to `val`.
    pub proof fn lemma_inserted(self, key: K, val: V)
        requires
            total_order::<K>(),
            self.wf(),
            self@.len() < usize::MAX,
        ensures
            self.inserted(key, val) is Node,
            self.inserted(key, val).wf(),
            self.inserted(key, val)@ == with_entry(self@, key, val),
            self.inserted(key, val)@.len() <= self@.len() + 1,
        decreases self,
    {
        lemma_strict_order::<K>();
        self.lemma_ascending();
        lemma_with_entry(self@, key, val);
        match self {
            NodeRef::Nil => {
                Self::lemma_join(NodeRef::Nil, key, val, NodeRef::Nil);
                lemma_empty(key, val);
                assert(self.inserted(key, val)@ =~= seq![(key, val)]);
            },
            NodeRef::Node(n) => {
                Self::lemma_wf_children(*n);
                Self::lemma_node(*n);
                let e = (n.key, n.val);
                if lt(key, n.key) {
                    n.left.lemma_inserted(key, val);
                    lemma_key_below(n.left@, e, n.right@, key);
                    Self::lemma_repaired(n.left.inserted(key, val), n.key, n.val, n.right);
                } else if lt(n.key, key) {
                    n.right.lemma_inserted(key, val);
                    lemma_key_above(n.left@, e, n.right@, key);
                    Self::lemma_repaired(n.left, n.key, n.val, n.right.inserted(key, val));
                } else {
                    assert(key == n.key);
                    lemma_key_here(n.left@, e, n.right@);
                    Self::lemma_node(
                        Node {
                            key: n.key,
                            val,
                            left: n.left,
                            right: n.right,
                            size: n.size,
                            height: n.height,
                        },
                    );
                }
            },
        }
    }

    /// Insertion keeps a balanced subtree balanced, and makes it at most one
    /// level taller.
    pub proof fn lemma_inserted_balanced(self, key: K, val: V)
        requires
            total_order::<K>(),
            self.wf(),
            self@.len() < usize::MAX,
            self.balanced(),
        ensures
            self.inserted(key, val).balanced(),
            self.levels() <= self.inserted(key, val).levels() <= self.levels() + 1,
    {
        self.lemma_inserted_shape(key, val);
    }

    /// Insertion keeps a balanced subtree balanced; where it makes a subtree
    /// that was not empty taller, the new root leans to a side.
    proof fn lemma_inserted_shape(self, key: K, val: V)
        requires
            total_order::<K>(),
            self.wf(),
            self@.len() < usize::MAX,
            self.balanced(),
        ensures
            self.inserted(key, val).balanced(),
            self.inserted(key, val).levels() == self.levels() || (self.inserted(key, val).levels()
                == self.levels() + 1 && (self is Nil || self.inserted(key, val).lean() != 0)),
        decreases self,
    {
        match self {
            NodeRef::Nil => {
                Self::lemma_join(NodeRef::Nil, key, val, NodeRef::Nil);
            },
            NodeRef::Node(n) => {
                Self::lemma_wf_children(*n);
                Self::lemma_node(*n);
                if lt(key, n.key) {
                    n.left.lemma_inserted(key, val);
                    n.left.lemma_inserted_shape(key, val);
                    Self::lemma_repaired_grown(
                        n.left,
                        n.right,
                        n.left.inserted(key, val),
                        n.right,
                        n.key,
                        n.val,
                    );
                } else if lt(n.key, key) {
                    n.right.lemma_inserted(key, val);
                    n.right.lemma_inserted_shape(key, val);
                    Self::lemma_repaired_grown(
                        n.left,
                        n.right,
                        n.left,
                        n.right.inserted(key, val),
                        n.key,
                        n.val,
                    );
                } else {
                    Self::lemma_node(
                        Node {
                            key: n.key,
                            val,
                            left: n.left,
                            right: n.right,
                            size: n.size,
                            height: n.height,
                        },
                    );
                }
            },
        }
    }

    /// What one step of an insertion needs of the node it is at.
    proof fn lemma_insert_step(n: Node<K, V>, key: K, val: V)
        requires
            total_order::<K>(),
            NodeRef::Node(Box::new(n)).wf(),
            NodeRef::Node(Box::new(n))@.len() < usize::MAX,
        ensures
            n.left.wf(),
            n.right.wf(),
            n.left@.len() + n.right@.len() + 1 < usize::MAX,
            lt(key, n.key) ==> value_of(NodeRef::Node(Box::new(n))@, key) == value_of(
                n.left@,
                key,
            ) && with_entry(n.left@, key, val).len() <= n.left@.len() + 1,
            lt(n.key, key) ==> value_of(NodeRef::Node(Box::new(n))@, key) == value_of(
                n.right@,
                key,
            ) && with_entry(n.right@, key, val).len() <= n.right@.len() + 1,
            !lt(key, n.key) && !lt(n.key, key) ==> value_of(NodeRef::Node(Box::new(n))@, key)
                == Some(n.val),
    {
        lemma_strict_order::<K>();
        Self::lemma_wf_children(n);
        Self::lemma_node(n);
        let e = (n.key, n.val);
        if lt(key, n.key) {
            lemma_key_below(n.left@, e, n.right@, key);
            lemma_with_entry(n.left@, key, val);
        } else if lt(n.key, key) {
            lemma_key_above(n.left@, e, n.right@, key);
            lemma_with_entry(n.right@, key, val);
        } else {
            lemma_key_here(n.left@, e, n.right@);
        }
    }

    /// Binds `key` to `val` in the subtree and returns the new subtree with
    /// the value that `key` had before.
    pub fn insert(self, key: K, val: V) -> (res: (Self, Option<V>))
        requires
            total_order::<K>(),
            self.wf(),
            self@.len() < usize::MAX,
        ensures
            res.0 == self.inserted(key, val),
            res.1 == value_of(self@, key),
            res.0.wf(),
            res.0@ == with_entry(self@, key, val),
            res.0@.len() == self@.len() + if holds(self@, key) {
                0int
            } else {
                1int
            },
            holds(self@, key) ==> keys_of(res.0@) == keys_of(self@),
            entry_of(res.0@, key) == Some((key, val)),
            self.balanced() ==> res.0.balanced(),
        decreases self,
    {
        proof {
            self.lemma_ascending();
            lemma_with_entry(self@, key, val);
            self.lemma_inserted(key, val);
            if self.balanced() {
                self.lemma_inserted_balanced(key, val);
            }
        }
        if let NodeRef::Node(mut n) = self {
            proof {
                Self::lemma_insert_step(*n, key, val);
            }
            if less(&key, &n.key) {
                let (new_left, old_val) = n.left.insert(key, val);
                n.left = new_left;
                (NodeRef::repair(n), old_val)
            } else if greater(&key, &n.key) {
                let (new_right, old_val) = n.right.insert(key, val);
                n.right = new_right;
                (NodeRef::repair(n), old_val)
            } else {
                let old_val = n.val;
                n.val = val;
                (NodeRef::Node(n), Some(old_val))
            }
        } else {
            proof {
                lemma_empty(key, val);
            }
            (NodeRef::new(key, val), None)
        }
    }
}

impl<K, V> NodeRef<K, V> {
    /// What `remove_min` takes a node's subtree apart into: the subtree
    /// without its first entry, and that entry.
    pub closed spec fn first_removed(n: Node<K, V>) -> (Self, (K, V))
        decreases n,
    {
        match n.left {
            NodeRef::Node(l) => (
                Self::repaired(Self::first_removed(*l).0, n.key, n.val, n.right),
                Self::first_removed(*l).1,
            ),
            NodeRef::Nil => (n.right, (n.key, n.val)),
        }
    }

    /// Taking the first entry out of this node's subtree meets a tie in one
    /// of its rotations.
    pub closed spec fn first_ties(n: Node<K, V>) -> bool
        decreases n,
    {
        match n.left {
            NodeRef::Node(l) => Self::first_ties(*l) || Self::tie(
                Self::first_removed(*l).0,
                n.right,
            ),
            NodeRef::Nil => false,
        }
    }

    /// Taking the first entry out leaves the other entries in their order,
    /// with true sizes and heights.
    proof fn lemma_first_removed(n: Node<K, V>)
        requires
            NodeRef::Node(Box::new(n)).cached(),
        ensures
            Self::first_removed(n).0.cached(),
            NodeRef::Node(Box::new(n))@ == seq![Self::first_removed(n).1] + Self::first_removed(
                n,
            ).0@,
            Self::first_removed(n).0@.len() + 1 == NodeRef::Node(Box::new(n))@.len(),
        decreases n,
    {
        Self::lemma_node(n);
        let e = (n.key, n.val);
        match n.left {
            NodeRef::Node(l) => {
                Self::lemma_first_removed(*l);
                let rest = Self::first_removed(*l).0;
                let m = Self::first_removed(*l).1;
                Self::lemma_repaired(rest, n.key, n.val, n.right);
                assert(seq![m] + (rest@.push(e) + n.right@) =~= (seq![m] + rest@).push(e)
                    + n.right@);
            },
            NodeRef::Nil => {
                assert(n.left@.push(e) + n.right@ =~= seq![e] + n.right@);
            },
        }
        assert((seq![Self::first_removed(n).1] + Self::first_removed(n).0@).len()
            == Self::first_removed(n).0@.len() + 1);
    }

    /// Of a balanced subtree, taking the first entry out leaves a balanced
    /// one exactly when no rotation meets a tie, and one that is at most one
    /// level lower.
    proof fn lemma_first_removed_shape(n: Node<K, V>)
        requires
            NodeRef::Node(Box::new(n)).cached(),
            NodeRef::Node(Box::new(n)).balanced(),
        ensures
            Self::first_removed(n).0.balanced() <==> !Self::first_ties(n),
            Self::first_removed(n).0.levels() <= NodeRef::Node(Box::new(n)).levels()
                <= Self::first_removed(n).0.levels() + 1,
            Self::first_ties(n) ==> Self::first_removed(n).0.levels() == NodeRef::Node(
                Box::new(n),
            ).levels(),
        decreases n,
    {
        Self::lemma_node(n);
        match n.left {
            NodeRef::Node(l) => {
                Self::lemma_first_removed(*l);
                Self::lemma_first_removed_shape(*l);
                Self::lemma_repaired_lower(
                    n.left,
                    n.right,
                    Self::first_removed(*l).0,
                    n.right,
                    n.key,
                    n.val,
                    Self::first_ties(*l),
                );
            },
            NodeRef::Nil => {},
        }
    }

    /// Takes the first entry out of the subtree of `n`: gives what is left
    /// of the subtree, and a node of that one entry.
    fn remove_min(mut n: Box<Node<K, V>>) -> (res: (Self, Box<Node<K, V>>))
        requires
            NodeRef::Node(n).cached(),
        ensures
            res.0 == Self::first_removed(*n).0,
            NodeRef::Node(res.1) == Self::join(
                NodeRef::Nil,
                Self::first_removed(*n).1.0,
                Self::first_removed(*n).1.1,
                NodeRef::Nil,
            ),
        decreases n,
    {
        proof {
            Self::lemma_node(*n);
        }
        if let NodeRef::Node(left) = n.left {
            proof {
                Self::lemma_first_removed(*left);
            }
            let (new_left, min_node) = NodeRef::remove_min(left);
            n.left = new_left;
            (NodeRef::repair(n), min_node)
        } else {
            let right = n.right;
            n.right = NodeRef::Nil;
            NodeRef::update(&mut n);
            (right, n)
        }
    }
}

impl<K: Ord, V> NodeRef<K, V> {
    /// The subtree that `remove` returns: the subtree itself where it is
    /// empty; where the key is the root's, the other child if one child is
    /// empty, else the first entry of the right child over the left child
    /// and the rest of the right child, repaired; else the root with the key
    /// removed on the side where it belongs, repaired.
    pub closed spec fn removed(self, key: K) -> Self
        decreases self,
    {
        match self {
            NodeRef::Nil => NodeRef::Nil,
            NodeRef::Node(n) => if lt(key, n.key) {
                Self::repaired(n.left.removed(key), n.key, n.val, n.right)
            } else if lt(n.key, key) {
                Self::repaired(n.left, n.key, n.val, n.right.removed(key))
            } else if n.left is Nil {
                n.right
            } else {
                match n.right {
                    NodeRef::Node(r) => Self::repaired(
                        n.left,
                        Self::first_removed(*r).1.0,
                        Self::first_removed(*r).1.1,
                        Self::first_removed(*r).0,
                    ),
                    NodeRef::Nil => n.left,
                }
            },
        }
    }

    /// Removing `key` from this subtree meets a tie in one of its
    /// rotations.
    pub closed spec fn remove_ties(self, key: K) -> bool
        decreases self,
    {
        match self {
            NodeRef::Nil => false,
            NodeRef::Node(n) => if lt(key, n.key) {
                n.left.remove_ties(key) || Self::tie(n.left.removed(key), n.right)
            } else if lt(n.key, key) {
                n.right.remove_ties(key) || Self::tie(n.left, n.right.removed(key))
            } else if n.left is Nil {
                false
            } else {
                match n.right {
                    NodeRef::Node(r) => Self::first_ties(*r) || Self::tie(
                        n.left,
                        Self::first_removed(*r).0,
                    ),
                    NodeRef::Nil => false,
                }
            },
        }
    }

    /// Removal from a well-formed subtree gives a well-formed subtree whose
    /// entries are the old ones without the entry for `key`.
    pub proof fn lemma_removed(self, key: K)
        requires
            total_order::<K>(),
            self.wf(),
        ensures
            self.removed(key).wf(),
            self.removed(key)@ == without(self@, key),
            self.removed(key)@.len() <= self@.len(),
        decreases self,
    {
        lemma_strict_order::<K>();
        self.lemma_ascending();
        lemma_without(self@, key);
        match self {
            NodeRef::Nil => {},
            NodeRef::Node(n) => {
                Self::lemma_wf_children(*n);
                Self::lemma_node(*n);
                let e = (n.key, n.val);
                if lt(key, n.key) {
                    n.left.lemma_removed(key);
                    lemma_key_below(n.left@, e, n.right@, key);
                    Self::lemma_repaired(n.left.removed(key), n.key, n.val, n.right);
                } else if lt(n.key, key) {
                    n.right.lemma_removed(key);
                    lemma_key_above(n.left@, e, n.right@, key);
                    Self::lemma_repaired(n.left, n.key, n.val, n.right.removed(key));
                } else {
                    assert(key == n.key);
                    lemma_key_here(n.left@, e, n.right@);
                    if n.left is Nil {
                        assert(n.left@ + n.right@ =~= n.right@);
                    } else {
                        match n.right {
                            NodeRef::Node(r) => {
                                Self::lemma_first_removed(*r);
                                let rest = Self::first_removed(*r).0;
                                let m = Self::first_removed(*r).1;
                                Self::lemma_repaired(n.left, m.0, m.1, rest);
                                assert(n.left@.push(m) + rest@ =~= n.left@ + (seq![m] + rest@));
                            },
                            NodeRef::Nil => {
                                assert(n.left@ + n.right@ =~= n.left@);
                            },
                        }
                    }
                }
            },
        }
    }

    /// Of a balanced subtree, removal leaves a balanced one exactly when no
    /// rotation meets a tie, and one that is at most one level lower.
    pub proof fn lemma_removed_balanced(self, key: K)
        requires
            total_order::<K>(),
            self.wf(),
            self.balanced(),
        ensures
            self.removed(key).balanced() <==> !self.remove_ties(key),
            self.removed(key).levels() <= self.levels() <= self.removed(key).levels() + 1,
            self.remove_ties(key) ==> self.removed(key).levels() == self.levels(),
        decreases self,
    {
        match self {
            NodeRef::Nil => {},
            NodeRef::Node(n) => {
                Self::lemma_wf_children(*n);
                Self::lemma_node(*n);
                if lt(key, n.key) {
                    n.left.lemma_removed(key);
                    n.left.lemma_removed_balanced(key);
                    Self::lemma_repaired_lower(
                        n.left,
                        n.right,
                        n.left.removed(key),
                        n.right,
                        n.key,
                        n.val,
                        n.left.remove_ties(key),
                    );
                } else if lt(n.key, key) {
                    n.right.lemma_removed(key);
                    n.right.lemma_removed_balanced(key);
                    Self::lemma_repaired_lower(
                        n.left,
                        n.right,
                        n.left,
                        n.right.removed(key),
                        n.key,
                        n.val,
                        n.right.remove_ties(key),
                    );
                } else if n.left is Nil {
                } else {
                    match n.right {
                        NodeRef::Node(r) => {
                            Self::lemma_node(*r);
                            Self::lemma_first_removed(*r);
                            Self::lemma_first_removed_shape(*r);
                            Self::lemma_repaired_lower(
                                n.left,
                                n.right,
                                n.left,
                                Self::first_removed(*r).0,
                                Self::first_removed(*r).1.0,
                                Self::first_removed(*r).1.1,
                                Self::first_ties(*r),
                            );
                        },
                        NodeRef::Nil => {},
                    }
                }
            },
        }
    }

    /// A balanced subtree that does not hold `key` is what removing `key`
    /// from it gives.
    pub proof fn lemma_removed_absent(self, key: K)
        requires
            total_order::<K>(),
            self.wf(),
            self.balanced(),
            !holds(self@, key),
        ensures
            self.removed(key) == self,
        decreases self,
    {
        lemma_strict_order::<K>();
        match self {
            NodeRef::Nil => {},
            NodeRef::Node(n) => {
                Self::lemma_wf_children(*n);
                Self::lemma_node(*n);
                let e = (n.key, n.val);
                if lt(key, n.key) {
                    lemma_key_below(n.left@, e, n.right@, key);
                    n.left.lemma_removed_absent(key);
                    Self::lemma_repaired(n.left, n.key, n.val, n.right);
                } else if lt(n.key, key) {
                    lemma_key_above(n.left@, e, n.right@, key);
                    n.right.lemma_removed_absent(key);
                    Self::lemma_repaired(n.left, n.key, n.val, n.right);
                } else {
                    assert(key == n.key);
                    lemma_key_here(n.left@, e, n.right@);
                }
            },
        }
    }

    /// What one step of a removal needs of the node it is at.
    proof fn lemma_remove_step(n: Node<K, V>, key: K)
        requires
            total_order::<K>(),
            NodeRef::Node(Box::new(n)).wf(),
        ensures
            n.left.wf(),
            n.right.wf(),
            n.left@.len() + n.right@.len() < usize::MAX,
            lt(key, n.key) ==> entry_of(NodeRef::Node(Box::new(n))@, key) == entry_of(
                n.left@,
                key,
            ) && without(n.left@, key).len() <= n.left@.len(),
            lt(n.key, key) ==> entry_of(NodeRef::Node(Box::new(n))@, key) == entry_of(
                n.right@,
                key,
            ) && without(n.right@, key).len() <= n.right@.len(),
            !lt(key, n.key) && !lt(n.key, key) ==> entry_of(NodeRef::Node(Box::new(n))@, key)
                == Some((n.key, n.val)),
            n.right matches NodeRef::Node(r) ==> Self::first_removed(*r).0.cached()
                && Self::first_removed(*r).0@.len() < n.right@.len(),
    {
        lemma_strict_order::<K>();
        Self::lemma_wf_children(n);
        Self::lemma_node(n);
        let e = (n.key, n.val);
        if lt(key, n.key) {
            lemma_key_below(n.left@, e, n.right@, key);
            lemma_without(n.left@, key);
        } else if lt(n.key, key) {
            lemma_key_above(n.left@, e, n.right@, key);
            lemma_without(n.right@, key);
        } else {
            lemma_key_here(n.left@, e, n.right@);
        }
        if let NodeRef::Node(r) = n.right {
            Self::lemma_first_removed(*r);
        }
    }

    /// Removes the entry for `key` from the subtree and returns the new
    /// subtree with the entry removed.
    pub fn remove<Q: Probe<K> + ?Sized>(self, key: &Q) -> (res: (Self, Option<(K, V)>))
        requires
            total_order::<K>(),
            self.wf(),
        ensures
            res.0 == self.removed(key.stands_for()),
            res.1 == entry_of(self@, key.stands_for()),
            res.0.wf(),
            res.0@ == without(self@, key.stands_for()),
            res.0@.len() == self@.len() - if holds(self@, key.stands_for()) {
                1int
            } else {
                0int
            },
            !holds(res.0@, key.stands_for()),
            !holds(self@, key.stands_for()) ==> res.0@ == self@,
            self.balanced() ==> (res.0.balanced() <==> !self.remove_ties(key.stands_for())),
            self.balanced() && !holds(self@, key.stands_for()) ==> res.0 == self,
        decreases self,
    {
        proof {
            self.lemma_ascending();
            lemma_without(self@, key.stands_for());
            self.lemma_removed(key.stands_for());
            if self.balanced() {
                self.lemma_removed_balanced(key.stands_for());
                if !holds(self@, key.stands_for()) {
                    self.lemma_removed_absent(key.stands_for());
                }
            }
        }
        if let NodeRef::Node(mut n) = self {
            proof {
                Self::lemma_remove_step(*n, key.stands_for());
            }
            if key.before(&n.key) {
                let (new_left, old_node) = n.left.remove(key);
                n.left = new_left;
                return (NodeRef::repair(n), old_node);
            }
            if key.after(&n.key) {
                let (new_right, old_node) = n.right.remove(key);
                n.right = new_right;
                return (NodeRef::repair(n), old_node);
            }
            let (entry, left, right) = (Some((n.key, n.val)), n.left, n.right);

            if left.is_nil() {
                return (right, entry);
            }
            if let NodeRef::Node(n) = right {
                let (new_right, mut min_node) = NodeRef::remove_min(n);
                proof {
                    reveal(NodeRef::join);
                }
                min_node.left = left;
                min_node.right = new_right;
                return (NodeRef::repair(min_node), entry);
            } else {
                return (left, entry);
            }
        } else {
            (NodeRef::Nil, None)
        }
    }
}

impl<K, V> NodeRef<K, V> {
    /// The subtree whose root is the entry at position `i` of the in-order
    /// traversal, found by the sizes that the nodes record; the empty
    /// subtree where the descent runs out.
    pub closed spec fn at_rank(self, i: nat) -> Self
        decreases self,
    {
        match self {
            NodeRef::Nil => NodeRef::Nil,
            NodeRef::Node(n) => if i < n.left.size_spec() {
                n.left.at_rank(i)
            } else if i > n.left.size_spec() {
                n.right.at_rank((i - n.left.size_spec() - 1) as nat)
            } else {
                self
            },
        }
    }

    /// In a subtree that records its true sizes, `at_rank` finds the entry
    /// at position `i` of the in-order traversal, and nothing for an `i`
    /// that is no position.
    pub proof fn lemma_at_rank(self, i: nat)
        requires
            self.cached(),
        ensures
            self.at_rank(i).cached(),
            self.at_rank(i).root() == if i < self@.len() {
                Some(self@[i as int])
            } else {
                None
            },
            self.balanced() ==> self.at_rank(i).balanced(),
        decreases self,
    {
        match self {
            NodeRef::Nil => {},
            NodeRef::Node(n) => {
                Self::lemma_node(*n);
                if i < n.left.size_spec() {
                    n.left.lemma_at_rank(i);
                } else if i > n.left.size_spec() {
                    n.right.lemma_at_rank((i - n.left.size_spec() - 1) as nat);
                }
            },
        }
    }

    /// The subtree whose root is the entry at position `i` of the in-order
    /// traversal; the empty subtree where `i` is no position.
    pub fn get_nth(&self, i: usize) -> (res: &Self)
        requires
            self.cached(),
        ensures
            *res == self.at_rank(i as nat),
            res.cached(),
            res.root() == if i < self@.len() {
                Some(self@[i as int])
            } else {
                None
            },
        decreases self,
    {
        proof {
            self.lemma_at_rank(i as nat);
        }
        if let NodeRef::Node(n) = self {
            proof {
                Self::lemma_node(**n);
            }
            let left_size: usize = n.left.size();
            if i < left_size {
                n.left.get_nth(i)
            } else if i > left_size {
                n.right.get_nth(i - left_size - 1)
            } else {
                self
            }
        } else {
            &NodeRef::Nil
        }
    }

    /// Appends the keys of the subtree to `keys`, in order.
    pub fn lnr<'a>(&'a self, mut keys: Vec<&'a K>) -> (res: Vec<&'a K>)
        ensures
            res@.unref() == keys@.unref() + keys_of(self@),
        decreases self,
    {
        let ghost before = keys@.unref();
        if let NodeRef::Node(n) = self {
            proof {
                Self::lemma_node(**n);
            }
            keys = n.left.lnr(keys);
            let ghost mid = keys@.unref();
            keys.push(&n.key);
            assert(keys@.unref() =~= mid.push(n.key));
            keys = n.right.lnr(keys);
            assert(keys@.unref() =~= before + keys_of(self@));
        } else {
            assert(keys@.unref() =~= before + keys_of(self@));
        }
        keys
    }

    /// Appends the keys of the subtree to `keys`, each node before its
    /// children.
    pub fn nlr<'a>(&'a self, mut keys: Vec<&'a K>) -> (res: Vec<&'a K>)
        ensures
            res@.unref() == keys@.unref() + self.preorder(),
        decreases self,
    {
        let ghost before = keys@.unref();
        if let NodeRef::Node(n) = self {
            keys.push(&n.key);
            assert(keys@.unref() =~= before.push(n.key));
            keys = n.left.nlr(keys);
            keys = n.right.nlr(keys);
            assert(keys@.unref() =~= before + self.preorder());
        } else {
            assert(keys@.unref() =~= before + self.preorder());
        }
        keys
    }

    /// Appends the keys of the subtree to `keys`, each node after its
    /// children.
    pub fn lrn<'a>(&'a self, mut keys: Vec<&'a K>) -> (res: Vec<&'a K>)
        ensures
            res@.unref() == keys@.unref() + self.postorder(),
        decreases self,
    {
        let ghost before = keys@.unref();
        if let NodeRef::Node(n) = self {
            keys = n.left.lrn(keys);
            keys = n.right.lrn(keys);
            let ghost mid = keys@.unref();
            keys.push(&n.key);
            assert(keys@.unref() =~= mid.push(n.key));
            assert(keys@.unref() =~= before + self.postorder());
        } else {
            assert(keys@.unref() =~= before + self.postorder());
        }
        keys
    }
}

impl<K: Ord, V> NodeRef<K, V> {
    /// The subtree whose root has the key `key`; the empty subtree where no
    /// node has it.
    pub closed spec fn at_key(self, key: K) -> Self
        decreases self,
    {
        match self {
            NodeRef::Nil => NodeRef::Nil,
            NodeRef::Node(n) => if lt(key, n.key) {
                n.left.at_key(key)
            } else if lt(n.key, key) {
                n.right.at_key(key)
            } else {
                self
            },
        }
    }

    /// In a well-formed subtree `at_key` finds the entry that the subtree
    /// holds for `key`, and nothing where it holds none.
    pub proof fn lemma_at_key(self, key: K)
        requires
            total_order::<K>(),
            self.wf(),
        ensures
            self.at_key(key).wf(),
            self.at_key(key).root() == entry_of(self@, key),
            self.balanced() ==> self.at_key(key).balanced(),
        decreases self,
    {
        lemma_strict_order::<K>();
        match self {
            NodeRef::Nil => {},
            NodeRef::Node(n) => {
                Self::lemma_wf_children(*n);
                Self::lemma_node(*n);
                let e = (n.key, n.val);
                if lt(key, n.key) {
                    lemma_key_below(n.left@, e, n.right@, key);
                    n.left.lemma_at_key(key);
                } else if lt(n.key, key) {
                    lemma_key_above(n.left@, e, n.right@, key);
                    n.right.lemma_at_key(key);
                } else {
                    lemma_key_here(n.left@, e, n.right@);
                }
            },
        }
    }

    /// The subtree whose root has the key `key`; the empty subtree where the
    /// subtree holds no such key.
    pub fn get<Q: Probe<K> + ?Sized>(&self, key: &Q) -> (res: &Self)
        requires
            total_order::<K>(),
            self.wf(),
        ensures
            *res == self.at_key(key.stands_for()),
            res.wf(),
            res.root() == entry_of(self@, key.stands_for()),
        decreases self,
    {
        proof {
            self.lemma_at_key(key.stands_for());
        }
        if let NodeRef::Node(n) = self {
            proof {
                Self::lemma_wf_children(**n);
            }
            if key.before(&n.key) {
                n.left.get(key)
            } else if key.after(&n.key) {
                n.right.get(key)
            } else {
                self
            }
        } else {
            &NodeRef::Nil
        }
    }
}

impl<K, V> NodeRef<K, V> {
    /// A balanced subtree of `h` levels has at least `min_size(h)` entries.
    pub proof fn lemma_balanced_size(self)
        requires
            self.balanced(),
        ensures
            min_size(self.levels()) <= self@.len(),
        decreases self,
    {
        match self {
            NodeRef::Nil => {},
            NodeRef::Node(n) => {
                Self::lemma_node(*n);
                n.left.lemma_balanced_size();
                n.right.lemma_balanced_size();
                let h = self.levels();
                if h >= 2 {
                    lemma_min_size_grows((h - 2) as nat, n.left.levels());
                    lemma_min_size_grows((h - 2) as nat, n.right.levels());
                    if n.left.levels() >= n.right.levels() {
                        assert(n.left.levels() == h - 1);
                    } else {
                        assert(n.right.levels() == h - 1);
                    }
                }
            },
        }
    }

    /// The height of a balanced subtree is logarithmic in its size: with `h`
    /// levels and `n` entries, `(809/500)^h <= n + 1`, so that `h` is at
    /// most the logarithm of `n + 1` to the base 1.618.
    pub proof fn lemma_height_bound(self)
        requires
            self.balanced(),
        ensures
            power(809, self.levels()) <= power(500, self.levels()) * (self@.len() + 1),
    {
        self.lemma_balanced_size();
        lemma_min_size_power(self.levels());
        let q = power(500, self.levels());
        let m = min_size(self.levels()) + 1;
        let n = self@.len() + 1;
        assert(q * m <= q * n) by (nonlinear_arith)
            requires
                m <= n,
                0 <= q,
        ;
    }
}

impl<K: Ord, V> NodeRef<K, V> {
    /// Inserting a key that the subtree does not hold and then removing it
    /// gives a subtree with the entries that there were.
    pub proof fn lemma_insert_then_remove(self, key: K, val: V)
        requires
            total_order::<K>(),
            self.wf(),
            self@.len() < usize::MAX,
            !holds(self@, key),
        ensures
            self.inserted(key, val).removed(key)@ == self@,
    {
        self.lemma_ascending();
        self.lemma_inserted(key, val);
        self.inserted(key, val).lemma_removed(key);
        lemma_insert_then_remove(self@, key, val);
    }
}

} // verus!
