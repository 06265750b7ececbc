//! The binary tree and its two kinds of node views.
//!
//! A tree is seen as its layout: a map from positions to values, where a
//! position is the path from the root (`false` for a left step, `true` for a
//! right step) and only populated nodes are in the map. Placeholders, the
//! reserved but empty child slots, stay out of the layout.

use crate::store::{
    arena_append, arena_first_child, arena_has_children, arena_last_child, arena_new, arena_nodes,
    arena_root, arena_root_id, arena_set_value, arena_value,
};
use ego_tree::{NodeId, Tree};
use vstd::prelude::*;

verus! {

/// The position of the left child of the node at `p`.
pub open spec fn left_of(p: Seq<bool>) -> Seq<bool> {
    p.push(false)
}

/// The position of the right child of the node at `p`.
pub open spec fn right_of(p: Seq<bool>) -> Seq<bool> {
    p.push(true)
}

/// A layout that holds the root and, with every position, that position's parent.
pub open spec fn tree_shaped<T>(m: Map<Seq<bool>, T>) -> bool {
    &&& m.contains_key(Seq::<bool>::empty())
    &&& forall|p: Seq<bool>|
        #![trigger m.contains_key(p), p.drop_last()]
        m.contains_key(p) && p.len() > 0 ==> m.contains_key(p.drop_last())
}

/// What the arena node of slot `p` must look like: a populated node holds a
/// valid value index and the slots of its two children, in order; a
/// placeholder has no children.
#[verifier::opaque]
pub open spec fn slot_ok(
    n: Map<NodeId, (Option<usize>, Seq<NodeId>)>,
    s: Map<Seq<bool>, NodeId>,
    len: nat,
    p: Seq<bool>,
) -> bool {
    &&& n.contains_key(s[p])
    &&& match n[s[p]].0 {
        Some(i) => {
            &&& i < len
            &&& s.contains_key(left_of(p))
            &&& s.contains_key(right_of(p))
            &&& n[s[p]].1 == seq![s[left_of(p)], s[right_of(p)]]
        },
        None => n[s[p]].1.len() == 0,
    }
}

/// Node `id` is the populated node at position `p` of the consistent tree `t`.
pub closed spec fn points_at<T>(t: BinaryTree<T>, p: Seq<bool>, id: NodeId) -> bool {
    &&& t.wf()
    &&& t.slots@.contains_key(p)
    &&& t.slots@[p] == id
    &&& t.populated(p)
}

/// A binary tree whose every populated node has two child slots. The tree is
/// never empty: its root is always populated.
pub struct BinaryTree<T> {
    store: Tree<Option<usize>>,
    values: Vec<T>,
    slots: Ghost<Map<Seq<bool>, NodeId>>,
}

impl<T> View for BinaryTree<T> {
    type V = Map<Seq<bool>, T>;

    /// The values of the populated nodes, by position.
    closed spec fn view(&self) -> Map<Seq<bool>, T> {
        Map::new(
            |p: Seq<bool>| self.populated(p),
            |p: Seq<bool>| self.values@[self.marker(p)->Some_0 as int],
        )
    }
}

impl<T> BinaryTree<T> {
    spec fn marker(&self, p: Seq<bool>) -> Option<usize> {
        arena_nodes(self.store)[self.slots@[p]].0
    }

    spec fn populated(&self, p: Seq<bool>) -> bool {
        self.slots@.contains_key(p) && self.marker(p) is Some
    }

    /// The tree's internal consistency: every slot maps to its own arena
    /// node, populated nodes have two child slots and distinct values, and
    /// every slot but the root hangs below a populated node.
    #[verifier::opaque]
    pub closed spec fn wf(&self) -> bool {
        let n = arena_nodes(self.store);
        let s = self.slots@;
        &&& s.contains_key(Seq::<bool>::empty())
        &&& s[Seq::<bool>::empty()] == arena_root(self.store)
        &&& self.marker(Seq::<bool>::empty()) is Some
        &&& forall|p: Seq<bool>| #[trigger] s.contains_key(p) ==> slot_ok(n, s, self.values@.len(), p)
        &&& forall|p: Seq<bool>|
            #![trigger s.contains_key(p), p.drop_last()]
            s.contains_key(p) && p.len() > 0 ==> s.contains_key(p.drop_last()) && self.marker(
                p.drop_last(),
            ) is Some
        &&& forall|p: Seq<bool>, q: Seq<bool>|
            #[trigger] s.contains_key(p) && #[trigger] s.contains_key(q) && s[p] == s[q] ==> p == q
        &&& forall|p: Seq<bool>, q: Seq<bool>|
            #[trigger] self.populated(p) && #[trigger] self.populated(q) && self.marker(p)
                == self.marker(q) ==> p == q
    }

    proof fn lemma_root(&self)
        requires
            self.wf(),
        ensures
            self.slots@.contains_key(Seq::<bool>::empty()),
            self.slots@[Seq::<bool>::empty()] == arena_root(self.store),
            self.populated(Seq::<bool>::empty()),
    {
        reveal(BinaryTree::wf);
    }

    proof fn lemma_slot(&self, p: Seq<bool>)
        requires
            self.wf(),
            self.slots@.contains_key(p),
        ensures
            slot_ok(arena_nodes(self.store), self.slots@, self.values@.len(), p),
            arena_nodes(self.store).contains_key(self.slots@[p]),
            self.marker(p) is None ==> arena_nodes(self.store)[self.slots@[p]].1.len() == 0,
            self.marker(p) is Some ==> {
                &&& self.marker(p)->Some_0 < self.values@.len()
                &&& self.slots@.contains_key(left_of(p))
                &&& self.slots@.contains_key(right_of(p))
                &&& arena_nodes(self.store)[self.slots@[p]].1 == seq![
                    self.slots@[left_of(p)],
                    self.slots@[right_of(p)],
                ]
            },
            self.marker(p) is Some ==> self.populated(left_of(p)) == self.view().contains_key(left_of(p)),
            self.marker(p) is Some ==> self.populated(right_of(p)) == self.view().contains_key(right_of(p)),
            self.populated(p) ==> self.view()[p] == self.values@[self.marker(p)->Some_0 as int],
    {
        reveal(BinaryTree::wf);
        reveal(slot_ok);
    }

    /// `self` is a consistent tree that keeps every slot of `older`, with the
    /// same node, and every populated node of `older` still populated.
    pub closed spec fn extends(&self, older: &BinaryTree<T>) -> bool {
        &&& self.wf()
        &&& forall|p: Seq<bool>| #[trigger] older.slots@.contains_key(p) ==> {
            &&& self.slots@.contains_key(p)
            &&& self.slots@[p] == older.slots@[p]
            &&& (older.populated(p) ==> self.populated(p))
        }
    }

    /// The layout of a consistent tree holds the root and the parent of each
    /// of its positions.
    pub proof fn lemma_shaped(&self)
        requires
            self.wf(),
        ensures
            tree_shaped(self@),
    {
        reveal(BinaryTree::wf);
    }

    /// Overwriting the value of a populated node changes the layout at that
    /// position only.
    proof fn lemma_overwrite(a: &Self, b: &Self, p: Seq<bool>, v: T)
        requires
            a.wf(),
            a.populated(p),
            b.store == a.store,
            b.slots == a.slots,
            b.values@ == a.values@.update(a.marker(p)->Some_0 as int, v),
        ensures
            b.wf(),
            b@ == a@.insert(p, v),
            b.extends(a),
    {
        reveal(BinaryTree::wf);
        reveal(slot_ok);
        assert(forall|q: Seq<bool>| #[trigger] b.populated(q) == a.populated(q));
        assert(forall|q: Seq<bool>| #[trigger] b.marker(q) == a.marker(q));
        assert(b@ =~= a@.insert(p, v));
    }

    /// Overwriting the value of a populated node, in every tree state that
    /// may follow.
    proof fn lemma_overwrite_any(a: Self, p: Seq<bool>)
        requires
            a.wf(),
            a.populated(p),
        ensures
            forall|b: Self|
                #![trigger b.wf()]
                #![trigger b.view()]
                #![trigger b.extends(&a)]
                b.store == a.store && b.slots == a.slots && b.values@ == a.values@.update(
                    a.marker(p)->Some_0 as int,
                    b.values@[a.marker(p)->Some_0 as int],
                ) ==> {
                    &&& b.wf()
                    &&& b@ == a@.insert(p, b.values@[a.marker(p)->Some_0 as int])
                    &&& b.extends(&a)
                },
    {
        assert forall|b: Self|
            #![trigger b.wf()]
            #![trigger b.view()]
            #![trigger b.extends(&a)]
            b.store == a.store && b.slots == a.slots && b.values@ == a.values@.update(
                a.marker(p)->Some_0 as int,
                b.values@[a.marker(p)->Some_0 as int],
            ) implies {
                &&& b.wf()
                &&& b@ == a@.insert(p, b.values@[a.marker(p)->Some_0 as int])
                &&& b.extends(&a)
            } by {
            Self::lemma_overwrite(&a, &b, p, b.values@[a.marker(p)->Some_0 as int]);
        }
    }

    /// Populating a placeholder with a new value and two new placeholder
    /// children adds that one position to the layout.
    proof fn lemma_populate(a: &Self, b: &Self, p: Seq<bool>, l: NodeId, r: NodeId, v: T)
        requires
            a.wf(),
            a.slots@.contains_key(p),
            !a.populated(p),
            !arena_nodes(a.store).contains_key(l),
            !arena_nodes(a.store).contains_key(r),
            l != r,
            b.values@ == a.values@.push(v),
            arena_root(b.store) == arena_root(a.store),
            arena_nodes(b.store) == arena_nodes(a.store).insert(
                a.slots@[p],
                (Some(a.values@.len() as usize), seq![l, r]),
            ).insert(l, (None, Seq::<NodeId>::empty())).insert(r, (None, Seq::<NodeId>::empty())),
            b.slots@ == a.slots@.insert(left_of(p), l).insert(right_of(p), r),
            a.values@.len() <= usize::MAX,
        ensures
            b.wf(),
            b@ == a@.insert(p, v),
            b.extends(a),
    {
        reveal(BinaryTree::wf);
        let n = arena_nodes(b.store);
        let s = b.slots@;
        let an = arena_nodes(a.store);
        let sa = a.slots@;
        let id = sa[p];
        a.lemma_slot(p);
        a.lemma_root();
        assert(!sa.contains_key(left_of(p))) by {
            if sa.contains_key(left_of(p)) {
                assert(left_of(p).drop_last() =~= p);
            }
        }
        assert(!sa.contains_key(right_of(p))) by {
            if sa.contains_key(right_of(p)) {
                assert(right_of(p).drop_last() =~= p);
            }
        }
        assert(left_of(p) != right_of(p)) by {
            assert(left_of(p)[p.len() as int] != right_of(p)[p.len() as int]);
        }
        assert(left_of(p).drop_last() =~= p);
        assert(right_of(p).drop_last() =~= p);
        assert forall|q: Seq<bool>| sa.contains_key(q) implies #[trigger] s.contains_key(q)
            && s[q] == sa[q] && n.contains_key(sa[q]) && (q != p ==> n[sa[q]] == an[sa[q]]) by {
            reveal(slot_ok);
            assert(q != left_of(p) && q != right_of(p));
            assert(an.contains_key(sa[q]));
            if q != p {
                assert(sa[q] != id);
            }
        }
        assert forall|q: Seq<bool>| #[trigger] s.contains_key(q) implies slot_ok(n, s, b.values@.len(), q) by {
            reveal(slot_ok);
            if q == left_of(p) || q == right_of(p) {
            } else if q == p {
                assert(n[id].1 =~= seq![s[left_of(p)], s[right_of(p)]]);
            } else {
                assert(slot_ok(an, sa, a.values@.len(), q));
                if an[sa[q]].0 is Some {
                    assert(left_of(q) != left_of(p) && left_of(q) != right_of(p)) by {
                        assert(left_of(q).drop_last() =~= q);
                    }
                    assert(right_of(q) != left_of(p) && right_of(q) != right_of(p)) by {
                        assert(right_of(q).drop_last() =~= q);
                    }
                }
            }
        }
        assert forall|q: Seq<bool>| #[trigger] b.populated(q) == (a.populated(q) || q == p) by {
            if s.contains_key(q) && q != left_of(p) && q != right_of(p) {
                assert(sa.contains_key(q));
                a.lemma_slot(q);
            }
        }
        assert forall|q: Seq<bool>| #[trigger] s.contains_key(q) && q.len() > 0
            implies s.contains_key(q.drop_last()) && b.marker(q.drop_last()) is Some by {
            if q != left_of(p) && q != right_of(p) {
                assert(sa.contains_key(q.drop_last()));
                assert(b.populated(q.drop_last()));
            } else {
                assert(b.populated(p));
            }
        }
        assert forall|q1: Seq<bool>, q2: Seq<bool>|
            #[trigger] s.contains_key(q1) && #[trigger] s.contains_key(q2) && s[q1] == s[q2] implies q1 == q2 by {
            if q1 != left_of(p) && q1 != right_of(p) {
                a.lemma_slot(q1);
            }
            if q2 != left_of(p) && q2 != right_of(p) {
                a.lemma_slot(q2);
            }
        }
        assert forall|q1: Seq<bool>, q2: Seq<bool>|
            #[trigger] b.populated(q1) && #[trigger] b.populated(q2) && b.marker(q1) == b.marker(q2) implies q1 == q2 by {
            reveal(slot_ok);
            if q1 != p {
                assert(a.populated(q1));
                assert(slot_ok(an, sa, a.values@.len(), q1));
            }
            if q2 != p {
                assert(a.populated(q2));
                assert(slot_ok(an, sa, a.values@.len(), q2));
            }
        }
        assert forall|q: Seq<bool>| #[trigger] b.populated(q) && q != p implies b.marker(q) == a.marker(q) by {
            assert(sa.contains_key(q));
        }
        assert forall|q: Seq<bool>| #[trigger] b.populated(q) && q != p implies b.values@[b.marker(
            q,
        )->Some_0 as int] == a.values@[a.marker(q)->Some_0 as int] by {
            assert(sa.contains_key(q));
            a.lemma_slot(q);
        }
        assert(b.marker(p) == Some(a.values@.len() as usize));
        assert(b.populated(Seq::<bool>::empty()));
        assert(s[Seq::<bool>::empty()] == arena_root(b.store));
        assert(b@ =~= a@.insert(p, v));
    }

    /// Creates a tree whose root holds `root_value` and has two empty child slots.
    pub fn new(root_value: T) -> (r: Self)
        ensures
            r.wf(),
            r@ == map![Seq::<bool>::empty() => root_value],
    {
        let mut store = arena_new(Some(0));
        let root = arena_root_id(&store);
        let left = arena_append(&mut store, root, None);
        let right = arena_append(&mut store, root, None);
        let values = vec![root_value];
        let ghost e = Seq::<bool>::empty();
        let ghost s = map![e => root, left_of(e) => left, right_of(e) => right];
        let r = BinaryTree { store, values, slots: Ghost(s) };
        proof {
            reveal(BinaryTree::wf);
            reveal(slot_ok);
            assert(s.dom() =~= set![e, left_of(e), right_of(e)]);
            assert(left_of(e) != e && right_of(e) != e && left_of(e) != right_of(e)) by {
                assert(left_of(e).len() == 1 && right_of(e)[0] != left_of(e)[0]);
            }
            assert(left_of(e).drop_last() =~= e);
            assert(right_of(e).drop_last() =~= e);
            assert(r@ =~= map![e => root_value]);
            let n = arena_nodes(r.store);
            assert(n.contains_key(root) && n.contains_key(left) && n.contains_key(right));
            assert(left != root && right != root && left != right);
            assert(n[root].1 =~= seq![left, right]);
            assert(r.values@.len() == 1);
            assert(slot_ok(n, s, r.values@.len(), e));
            assert(slot_ok(n, s, r.values@.len(), left_of(e)));
            assert(slot_ok(n, s, r.values@.len(), right_of(e)));
            assert(forall|p: Seq<bool>| #[trigger] s.contains_key(p) ==> slot_ok(n, s, r.values@.len(), p));
            assert(forall|p: Seq<bool>| #[trigger] s.contains_key(p) && p.len() > 0
                ==> s.contains_key(p.drop_last()) && r.marker(p.drop_last()) is Some);
            assert(forall|p: Seq<bool>, q: Seq<bool>|
                #[trigger] s.contains_key(p) && #[trigger] s.contains_key(q) && s[p] == s[q] ==> p == q);
            assert(forall|p: Seq<bool>, q: Seq<bool>|
                #[trigger] r.populated(p) && #[trigger] r.populated(q) && r.marker(p) == r.marker(q) ==> p == q);
        }
        r
    }

    /// A later state of a tree keeps every populated node where it was.
    pub proof fn lemma_extends_keeps(a: Self, b: Self, p: Seq<bool>, id: NodeId)
        requires
            points_at(a, p, id),
            b.extends(&a),
        ensures
            points_at(b, p, id),
    {
    }

    /// A consistent tree extends itself.
    pub proof fn lemma_extends_refl(a: Self)
        requires
            a.wf(),
        ensures
            a.extends(&a),
    {
    }

    /// `extends` is transitive.
    pub proof fn lemma_extends_trans(a: Self, b: Self, c: Self)
        requires
            b.extends(&a),
            c.extends(&b),
        ensures
            c.extends(&a),
    {
    }

    /// A shared view of the root.
    pub fn root(&self) -> (r: BinaryNodeRef<'_, T>)
        requires
            self.wf(),
        ensures
            r.inv(),
            r.path() == Seq::<bool>::empty(),
            r.layout() == self@,
    {
        proof {
            self.lemma_root();
        }
        let id = arena_root_id(&self.store);
        BinaryNodeRef { tree: self, id, path: Ghost(Seq::<bool>::empty()) }
    }

    /// An exclusive view of the root, borrowing the whole tree.
    pub fn root_mut(&mut self) -> (r: BinaryNodeMut<'_, T>)
        requires
            old(self).wf(),
        ensures
            r.inv(),
            r.path() == Seq::<bool>::empty(),
            r.tree() == *old(self),
            *final(self) == *final(r.tree),
    {
        proof {
            self.lemma_root();
        }
        let id = arena_root_id(&self.store);
        BinaryNodeMut { tree: self, id, path: Ghost(Seq::<bool>::empty()) }
    }
}

/// A shared, freely copyable view of one populated node of a tree.
#[derive(Clone, Copy)]
pub struct BinaryNodeRef<'a, T> {
    tree: &'a BinaryTree<T>,
    id: NodeId,
    path: Ghost<Seq<bool>>,
}

impl<'a, T> BinaryNodeRef<'a, T> {
    /// The view points at a populated node of a consistent tree.
    pub closed spec fn inv(&self) -> bool {
        points_at(*self.tree, self.path@, self.id)
    }

    /// The position of the viewed node.
    pub closed spec fn path(&self) -> Seq<bool> {
        self.path@
    }

    /// The layout of the whole tree the view belongs to.
    pub closed spec fn layout(&self) -> Map<Seq<bool>, T> {
        self.tree@
    }

    /// The left child, if its slot is populated.
    pub fn left(&self) -> (r: Option<BinaryNodeRef<'a, T>>)
        requires
            self.inv(),
        ensures
            r is Some <==> self.layout().contains_key(left_of(self.path())),
            r matches Some(c) ==> c.inv() && c.path() == left_of(self.path()) && c.layout()
                == self.layout(),
    {
        proof {
            self.tree.lemma_slot(self.path@);
            self.tree.lemma_slot(left_of(self.path@));
        }
        let left = arena_first_child(&self.tree.store, self.id).unwrap();
        if arena_value(&self.tree.store, left).is_none() {
            return None;
        }
        Some(BinaryNodeRef { tree: self.tree, id: left, path: Ghost(left_of(self.path@)) })
    }

    /// The right child, if its slot is populated.
    pub fn right(&self) -> (r: Option<BinaryNodeRef<'a, T>>)
        requires
            self.inv(),
        ensures
            r is Some <==> self.layout().contains_key(right_of(self.path())),
            r matches Some(c) ==> c.inv() && c.path() == right_of(self.path()) && c.layout()
                == self.layout(),
    {
        proof {
            self.tree.lemma_slot(self.path@);
            self.tree.lemma_slot(right_of(self.path@));
        }
        let right = arena_last_child(&self.tree.store, self.id).unwrap();
        if arena_value(&self.tree.store, right).is_none() {
            return None;
        }
        Some(BinaryNodeRef { tree: self.tree, id: right, path: Ghost(right_of(self.path@)) })
    }

    /// The value of the viewed node.
    pub fn value(&self) -> (r: &'a T)
        requires
            self.inv(),
        ensures
            *r == self.layout()[self.path()],
    {
        proof {
            self.tree.lemma_slot(self.path@);
        }
        let i = arena_value(&self.tree.store, self.id).unwrap();
        &self.tree.values[i]
    }
}

/// An exclusive view of one populated node of a tree: while it is alive, no
/// other view of the tree can exist.
///
/// The fields are public so that contracts can speak of the state the
/// borrowed tree has when the borrow ends; the methods expect `inv()`.
pub struct BinaryNodeMut<'a, T> {
    /// The borrowed tree.
    pub tree: &'a mut BinaryTree<T>,
    /// The arena node of the viewed position.
    pub id: NodeId,
    /// The viewed position.
    pub path: Ghost<Seq<bool>>,
}

impl<'a, T> BinaryNodeMut<'a, T> {
    /// The view points at a populated node of a consistent tree.
    pub closed spec fn inv(&self) -> bool {
        points_at(*self.tree, self.path@, self.id)
    }

    /// The position of the viewed node.
    pub open spec fn path(&self) -> Seq<bool> {
        self.path@
    }

    /// The arena node the view stands on.
    pub open spec fn node_id(&self) -> NodeId {
        self.id
    }

    /// The current state of the borrowed tree.
    pub open spec fn tree(&self) -> BinaryTree<T> {
        *self.tree
    }

    /// The layout of the whole tree the view belongs to.
    pub open spec fn layout(&self) -> Map<Seq<bool>, T> {
        self.tree()@
    }

    /// What `inv` states, over the borrowed tree's current state.
    pub proof fn lemma_inv_points(&self)
        requires
            self.inv(),
        ensures
            points_at(self.tree(), self.path(), self.node_id()),
            self.tree().wf(),
    {
    }

    /// A view whose tree grew from one where its node was populated at its
    /// position still meets `inv`.
    pub proof fn lemma_inv_kept(&self, older: BinaryTree<T>)
        requires
            points_at(older, self.path(), self.node_id()),
            self.tree().extends(&older),
        ensures
            self.inv(),
    {
        BinaryTree::lemma_extends_keeps(older, self.tree(), self.path(), self.node_id());
    }

    /// The id of the node in the child slot on `side` (`false` for left).
    fn slot(&self, side: bool) -> (r: NodeId)
        requires
            self.inv(),
        ensures
            r == self.tree().slots@[self.path().push(side)],
            self.tree().slots@.contains_key(self.path().push(side)),
    {
        proof {
            self.tree.lemma_slot(self.path@);
        }
        if side {
            arena_last_child(&self.tree.store, self.id).unwrap()
        } else {
            arena_first_child(&self.tree.store, self.id).unwrap()
        }
    }

    /// The exclusive view of the child on `side`, if its slot is populated.
    fn child(&mut self, side: bool) -> (r: Option<BinaryNodeMut<'_, T>>)
        requires
            old(self).inv(),
        ensures
            r is Some <==> old(self).layout().contains_key(old(self).path().push(side)),
            r matches Some(c) ==> {
                &&& c.inv()
                &&& c.path() == old(self).path().push(side)
                &&& c.tree() == old(self).tree()
                &&& final(self).tree() == *final(c.tree)
            },
            r is None ==> final(self).tree() == old(self).tree(),
            final(self).path() == old(self).path(),
            final(self).node_id() == old(self).node_id(),
            *final(final(self).tree) == *final(old(self).tree),
    {
        let c = self.slot(side);
        proof {
            self.tree.lemma_slot(self.path@);
            self.tree.lemma_slot(self.path@.push(side));
        }
        if arena_value(&self.tree.store, c).is_none() {
            return None;
        }
        Some(BinaryNodeMut { tree: &mut *self.tree, id: c, path: Ghost(self.path@.push(side)) })
    }

    /// The exclusive view of the left child, if its slot is populated.
    pub fn left(&mut self) -> (r: Option<BinaryNodeMut<'_, T>>)
        requires
            old(self).inv(),
        ensures
            r is Some <==> old(self).layout().contains_key(left_of(old(self).path())),
            r matches Some(c) ==> {
                &&& c.inv()
                &&& c.path() == left_of(old(self).path())
                &&& c.tree() == old(self).tree()
                &&& final(self).tree() == *final(c.tree)
            },
            r is None ==> final(self).tree() == old(self).tree(),
            final(self).path() == old(self).path(),
            final(self).node_id() == old(self).node_id(),
            *final(final(self).tree) == *final(old(self).tree),
    {
        self.child(false)
    }

    /// The exclusive view of the right child, if its slot is populated.
    pub fn right(&mut self) -> (r: Option<BinaryNodeMut<'_, T>>)
        requires
            old(self).inv(),
        ensures
            r is Some <==> old(self).layout().contains_key(right_of(old(self).path())),
            r matches Some(c) ==> {
                &&& c.inv()
                &&& c.path() == right_of(old(self).path())
                &&& c.tree() == old(self).tree()
                &&& final(self).tree() == *final(c.tree)
            },
            r is None ==> final(self).tree() == old(self).tree(),
            final(self).path() == old(self).path(),
            final(self).node_id() == old(self).node_id(),
            *final(final(self).tree) == *final(old(self).tree),
    {
        self.child(true)
    }

    /// The value of the viewed node, for reading or writing.
    pub fn value(&mut self) -> (r: &mut T)
        requires
            old(self).inv(),
        ensures
            *r == old(self).layout()[old(self).path()],
            final(self).inv(),
            final(self).layout() == old(self).layout().insert(old(self).path(), *final(r)),
            final(self).tree().extends(&old(self).tree()),
            final(self).path() == old(self).path(),
            final(self).node_id() == old(self).node_id(),
            *final(final(self).tree) == *final(old(self).tree),
    {
        let ghost a = *self.tree;
        proof {
            a.lemma_slot(self.path@);
            BinaryTree::lemma_overwrite_any(a, self.path@);
        }
        let i = arena_value(&self.tree.store, self.id).unwrap();
        &mut self.tree.values[i]
    }

    /// Writes `value` into the child slot on `side`, creating that child's own
    /// two empty slots if it had none, and returns the exclusive view of it.
    fn set_child(&mut self, side: bool, value: T) -> (r: BinaryNodeMut<'_, T>)
        requires
            old(self).inv(),
        ensures
            r.inv(),
            r.path() == old(self).path().push(side),
            r.layout() == old(self).layout().insert(old(self).path().push(side), value),
            r.tree().extends(&old(self).tree()),
            final(self).tree() == *final(r.tree),
            final(self).path() == old(self).path(),
            final(self).node_id() == old(self).node_id(),
            *final(final(self).tree) == *final(old(self).tree),
    {
        let ghost a = *self.tree;
        let ghost p = self.path@;
        let ghost q = p.push(side);
        let ghost v = value;
        let c = self.slot(side);
        proof {
            a.lemma_slot(p);
            a.lemma_slot(q);
        }
        match arena_value(&self.tree.store, c) {
            Some(i) => {
                proof {
                    BinaryTree::lemma_overwrite_any(a, q);
                }
                self.tree.values.set(i, value);
                proof {
                    assert(self.tree.values@ == a.values@.update(i as int, v));
                }
            },
            None => {
                let i = self.tree.values.len();
                self.tree.values.push(value);
                arena_set_value(&mut self.tree.store, c, Some(i));
                proof {
                    assert(arena_nodes(a.store)[c].1 =~= Seq::<NodeId>::empty());
                }
            },
        }
        if !arena_has_children(&self.tree.store, c) {
            let left = arena_append(&mut self.tree.store, c, None);
            let right = arena_append(&mut self.tree.store, c, None);
            self.tree.slots = Ghost(self.tree.slots@.insert(left_of(q), left).insert(right_of(q), right));
            proof {
                assert(Seq::<NodeId>::empty().push(left).push(right) =~= seq![left, right]);
                assert(arena_nodes(self.tree.store) =~= arena_nodes(a.store).insert(
                    c,
                    (Some(a.values@.len() as usize), seq![left, right]),
                ).insert(left, (None, Seq::<NodeId>::empty())).insert(right, (None, Seq::<NodeId>::empty())));
                BinaryTree::lemma_populate(&a, &*self.tree, q, left, right, v);
            }
        }
        BinaryNodeMut { tree: &mut *self.tree, id: c, path: Ghost(q) }
    }

    /// Writes `value` into the left child slot and returns the exclusive view
    /// of that child. A child that was already populated keeps its own children.
    pub fn set_left(&mut self, value: T) -> (r: BinaryNodeMut<'_, T>)
        requires
            old(self).inv(),
        ensures
            r.inv(),
            r.path() == left_of(old(self).path()),
            r.layout() == old(self).layout().insert(left_of(old(self).path()), value),
            r.tree().extends(&old(self).tree()),
            final(self).tree() == *final(r.tree),
            final(self).path() == old(self).path(),
            final(self).node_id() == old(self).node_id(),
            *final(final(self).tree) == *final(old(self).tree),
    {
        self.set_child(false, value)
    }

    /// Writes `value` into the right child slot and returns the exclusive view
    /// of that child. A child that was already populated keeps its own children.
    pub fn set_right(&mut self, value: T) -> (r: BinaryNodeMut<'_, T>)
        requires
            old(self).inv(),
        ensures
            r.inv(),
            r.path() == right_of(old(self).path()),
            r.layout() == old(self).layout().insert(right_of(old(self).path()), value),
            r.tree().extends(&old(self).tree()),
            final(self).tree() == *final(r.tree),
            final(self).path() == old(self).path(),
            final(self).node_id() == old(self).node_id(),
            *final(final(self).tree) == *final(old(self).tree),
    {
        self.set_child(true, value)
    }
}

/// A new tree holds its root value at the root and nothing else: reading the
/// root's value gives the value it was made with, and both children are absent.
pub proof fn lemma_new_tree<T>(root_value: T)
    ensures
        map![Seq::<bool>::empty() => root_value][Seq::<bool>::empty()] == root_value,
        !map![Seq::<bool>::empty() => root_value].contains_key(left_of(Seq::<bool>::empty())),
        !map![Seq::<bool>::empty() => root_value].contains_key(right_of(Seq::<bool>::empty())),
{
    assert(left_of(Seq::<bool>::empty()).len() == 1);
    assert(right_of(Seq::<bool>::empty()).len() == 1);
}

/// After a value is written into a child slot of a populated node, that child
/// reads back the value; if the slot was empty before, the child's own two
/// slots are empty.
pub proof fn lemma_set_child_reads_back<T>(m: Map<Seq<bool>, T>, p: Seq<bool>, side: bool, v: T)
    requires
        tree_shaped(m),
        m.contains_key(p),
    ensures
        m.insert(p.push(side), v).contains_key(p.push(side)),
        m.insert(p.push(side), v)[p.push(side)] == v,
        !m.contains_key(p.push(side)) ==> !m.insert(p.push(side), v).contains_key(
            left_of(p.push(side)),
        ) && !m.insert(p.push(side), v).contains_key(right_of(p.push(side))),
{
    let c = p.push(side);
    assert(left_of(c).drop_last() =~= c);
    assert(right_of(c).drop_last() =~= c);
    assert(left_of(c) != c && right_of(c) != c) by {
        assert(left_of(c).len() != c.len() && right_of(c).len() != c.len());
    }
}

/// Writing a new value into a populated child slot changes that one value:
/// every other position, the child's descendants included, keeps its value.
pub proof fn lemma_overwrite_keeps_rest<T>(m: Map<Seq<bool>, T>, p: Seq<bool>, side: bool, v: T)
    requires
        m.contains_key(p.push(side)),
    ensures
        m.insert(p.push(side), v).dom() == m.dom(),
        m.insert(p.push(side), v)[p.push(side)] == v,
        forall|q: Seq<bool>|
            #[trigger] m.contains_key(q) && q != p.push(side) ==> m.insert(p.push(side), v)[q] == m[q],
{
    assert(m.insert(p.push(side), v).dom() =~= m.dom());
}

} // verus!
