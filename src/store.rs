//! The arena behind a binary tree: an `ego_tree::Tree` whose nodes hold an
//! optional index into the tree's value vector (`None` marks a placeholder).

use ego_tree::{NodeId, Tree};
use vstd::prelude::*;

verus! {

#[verifier::external_type_specification]
#[verifier::external_body]
#[verifier::reject_recursive_types(T)]
pub struct ExTree<T>(ego_tree::Tree<T>);

#[verifier::external_type_specification]
#[verifier::external_body]
pub struct ExNodeId(ego_tree::NodeId);

/// Relies on the derived `Clone` of `ego_tree::NodeId`, a `Copy` type: the clone equals the original.
pub assume_specification[ <ego_tree::NodeId as std::clone::Clone>::clone ](id: &ego_tree::NodeId) -> (r: ego_tree::NodeId)
    ensures
        r == *id,
;

/// The arena's nodes: for each node id, the value it holds and its children in order.
pub uninterp spec fn arena_nodes(t: Tree<Option<usize>>) -> Map<NodeId, (Option<usize>, Seq<NodeId>)>;

/// The id of the arena's root node.
pub uninterp spec fn arena_root(t: Tree<Option<usize>>) -> NodeId;

/// Relies on `ego_tree::Tree::new`: a tree made of one root node holding `v`, with no children.
#[verifier::external_body]
pub(crate) fn arena_new(v: Option<usize>) -> (t: Tree<Option<usize>>)
    ensures
        arena_nodes(t) == map![arena_root(t) => (v, Seq::<NodeId>::empty())],
{
    Tree::new(v)
}

/// Relies on `ego_tree::Tree::root` and `NodeRef::id`: the root's id.
#[verifier::external_body]
pub(crate) fn arena_root_id(t: &Tree<Option<usize>>) -> (r: NodeId)
    ensures
        r == arena_root(*t),
{
    t.root().id()
}

/// Relies on `ego_tree::NodeRef::value`: the value held by node `id`.
#[verifier::external_body]
pub(crate) fn arena_value(t: &Tree<Option<usize>>, id: NodeId) -> (r: Option<usize>)
    requires
        arena_nodes(*t).contains_key(id),
    ensures
        r == arena_nodes(*t)[id].0,
{
    *t.get(id).unwrap().value()
}

/// Relies on `ego_tree::NodeRef::first_child`: the first child of node `id`, if any.
#[verifier::external_body]
pub(crate) fn arena_first_child(t: &Tree<Option<usize>>, id: NodeId) -> (r: Option<NodeId>)
    requires
        arena_nodes(*t).contains_key(id),
    ensures
        arena_nodes(*t)[id].1.len() == 0 ==> r is None,
        arena_nodes(*t)[id].1.len() > 0 ==> r == Some(arena_nodes(*t)[id].1.first()),
{
    t.get(id).unwrap().first_child().map(|c| c.id())
}

/// Relies on `ego_tree::NodeRef::last_child`: the last child of node `id`, if any.
#[verifier::external_body]
pub(crate) fn arena_last_child(t: &Tree<Option<usize>>, id: NodeId) -> (r: Option<NodeId>)
    requires
        arena_nodes(*t).contains_key(id),
    ensures
        arena_nodes(*t)[id].1.len() == 0 ==> r is None,
        arena_nodes(*t)[id].1.len() > 0 ==> r == Some(arena_nodes(*t)[id].1.last()),
{
    t.get(id).unwrap().last_child().map(|c| c.id())
}

/// Relies on `ego_tree::NodeRef::has_children`: whether node `id` has any child.
#[verifier::external_body]
pub(crate) fn arena_has_children(t: &Tree<Option<usize>>, id: NodeId) -> (r: bool)
    requires
        arena_nodes(*t).contains_key(id),
    ensures
        r == (arena_nodes(*t)[id].1.len() > 0),
{
    t.get(id).unwrap().has_children()
}

/// Relies on `ego_tree::NodeMut::value`: overwrites the value of node `id`,
/// leaving its children and every other node as they were.
#[verifier::external_body]
pub(crate) fn arena_set_value(t: &mut Tree<Option<usize>>, id: NodeId, v: Option<usize>)
    requires
        arena_nodes(*old(t)).contains_key(id),
    ensures
        arena_nodes(*final(t)) == arena_nodes(*old(t)).insert(id, (v, arena_nodes(*old(t))[id].1)),
        arena_root(*final(t)) == arena_root(*old(t)),
{
    *t.get_mut(id).unwrap().value() = v;
}

/// Relies on `ego_tree::NodeMut::append`: creates a new node holding `v`, with no
/// children, and appends it as the last child of node `id`.
#[verifier::external_body]
pub(crate) fn arena_append(t: &mut Tree<Option<usize>>, id: NodeId, v: Option<usize>) -> (r: NodeId)
    requires
        arena_nodes(*old(t)).contains_key(id),
    ensures
        !arena_nodes(*old(t)).contains_key(r),
        arena_nodes(*final(t)) == arena_nodes(*old(t)).insert(
            id,
            (arena_nodes(*old(t))[id].0, arena_nodes(*old(t))[id].1.push(r)),
        ).insert(r, (v, Seq::<NodeId>::empty())),
        arena_root(*final(t)) == arena_root(*old(t)),
{
    t.get_mut(id).unwrap().append(v).id()
}

} // verus!
