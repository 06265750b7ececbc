//! Building a tree from a nested description: a root value with optional
//! left and right sub-descriptions, written out by `set_left` / `set_right`.

use crate::binary_tree::{left_of, right_of, BinaryNodeMut, BinaryTree};
use vstd::prelude::*;

verus! {

/// A nested description of a tree: a value and the optional subtrees below it.
pub struct Nested<T> {
    pub value: T,
    pub left: Option<Box<Nested<T>>>,
    pub right: Option<Box<Nested<T>>>,
}

/// The layout that the description `n` gives when its root stands at `at`.
pub open spec fn nested_layout<T>(n: Nested<T>, at: Seq<bool>) -> Map<Seq<bool>, T>
    decreases n,
{
    let below_left = match n.left {
        Some(l) => nested_layout(*l, left_of(at)),
        None => Map::empty(),
    };
    let below_right = match n.right {
        Some(r) => nested_layout(*r, right_of(at)),
        None => Map::empty(),
    };
    map![at => n.value].union_prefer_right(below_left).union_prefer_right(below_right)
}

impl<T> Nested<T> {
    /// A description with no children.
    pub fn leaf(value: T) -> (r: Self)
        ensures
            r.value == value,
            r.left is None,
            r.right is None,
    {
        Nested { value, left: None, right: None }
    }

    /// A description with the given children.
    pub fn node(value: T, left: Option<Nested<T>>, right: Option<Nested<T>>) -> (r: Self)
        ensures
            r.value == value,
            r.left is Some <==> left is Some,
            r.right is Some <==> right is Some,
            left matches Some(l) ==> r.left == Some(Box::new(l)),
            right matches Some(x) ==> r.right == Some(Box::new(x)),
    {
        let left = match left {
            Some(l) => Some(Box::new(l)),
            None => None,
        };
        let right = match right {
            Some(x) => Some(Box::new(x)),
            None => None,
        };
        Nested { value, left, right }
    }
}

/// The layout that results from writing the description `n` into `m` by
/// explicit calls, one per node: the value at `at` first, then the left
/// part, then the right part, each write replacing what stood there.
pub open spec fn written_in_order<T>(m: Map<Seq<bool>, T>, n: Nested<T>, at: Seq<bool>) -> Map<
    Seq<bool>,
    T,
>
    decreases n,
{
    let m1 = m.insert(at, n.value);
    let m2 = match n.left {
        Some(l) => written_in_order(m1, *l, left_of(at)),
        None => m1,
    };
    match n.right {
        Some(r) => written_in_order(m2, *r, right_of(at)),
        None => m2,
    }
}

/// Building from a nested description gives, at every position, the value
/// that the same writes made one by one through `set_left` / `set_right` give.
pub proof fn lemma_nested_matches_explicit<T>(m: Map<Seq<bool>, T>, n: Nested<T>, at: Seq<bool>)
    ensures
        written_in_order(m, n, at) == m.union_prefer_right(nested_layout(n, at)),
    decreases n,
{
    let m1 = m.insert(at, n.value);
    let bl = match n.left {
        Some(l) => nested_layout(*l, left_of(at)),
        None => Map::empty(),
    };
    let br = match n.right {
        Some(r) => nested_layout(*r, right_of(at)),
        None => Map::empty(),
    };
    let w2 = match n.left {
        Some(l) => written_in_order(m1, *l, left_of(at)),
        None => m1,
    };
    let m2 = m1.union_prefer_right(bl);
    if let Some(l) = n.left {
        lemma_nested_matches_explicit(m1, *l, left_of(at));
    } else {
        assert(m2 =~= m1);
    }
    assert(w2 == m2);
    if let Some(r) = n.right {
        lemma_nested_matches_explicit(m2, *r, right_of(at));
    } else {
        assert(m2.union_prefer_right(br) =~= m2);
    }
    assert(written_in_order(m, n, at) == m2.union_prefer_right(br));
    assert(m2.union_prefer_right(br) =~= m.union_prefer_right(nested_layout(n, at)));
}

/// Writes the description `n` into the child slot of `node` on `side`:
/// its value first, then its left part, then its right part.
fn attach<T>(node: &mut BinaryNodeMut<'_, T>, side: bool, n: Nested<T>)
    requires
        old(node).inv(),
    ensures
        final(node).inv(),
        final(node).layout() == old(node).layout().union_prefer_right(
            nested_layout(n, old(node).path().push(side)),
        ),
        final(node).tree().extends(&old(node).tree()),
        final(node).path() == old(node).path(),
        final(node).node_id() == old(node).node_id(),
        *final(final(node).tree) == *final(old(node).tree),
    decreases n,
{
    let ghost n0 = n;
    let ghost t0 = node.tree();
    let ghost at = node.path().push(side);
    proof {
        node.lemma_inv_points();
    }
    let Nested { value, left, right } = n;
    {
        let mut child = if side {
            node.set_right(value)
        } else {
            node.set_left(value)
        };
        let ghost c0 = child.tree();
        proof {
            child.lemma_inv_points();
            BinaryTree::lemma_extends_refl(c0);
        }
        if let Some(l) = left {
            attach(&mut child, false, *l);
        }
        let ghost c1 = child.tree();
        proof {
            child.lemma_inv_points();
            BinaryTree::lemma_extends_refl(c1);
        }
        if let Some(r) = right {
            attach(&mut child, true, *r);
        }
        proof {
            BinaryTree::lemma_extends_trans(c0, c1, child.tree());
            BinaryTree::lemma_extends_trans(t0, c0, child.tree());
        }
    }
    proof {
        node.lemma_inv_kept(t0);
        assert(node.layout() =~= t0@.union_prefer_right(nested_layout(n0, at)));
    }
}

/// Builds the tree that the description `n` gives, with its root at the top.
pub fn build<T>(n: Nested<T>) -> (r: BinaryTree<T>)
    ensures
        r.wf(),
        r@ == nested_layout(n, Seq::<bool>::empty()),
{
    let ghost n0 = n;
    let Nested { value, left, right } = n;
    let mut tree = BinaryTree::new(value);
    {
        let mut root = tree.root_mut();
        if let Some(l) = left {
            attach(&mut root, false, *l);
        }
        if let Some(r) = right {
            attach(&mut root, true, *r);
        }
        proof {
            root.lemma_inv_points();
        }
    }
    proof {
        assert(tree@ =~= nested_layout(n0, Seq::<bool>::empty()));
    }
    tree
}

} // verus!
