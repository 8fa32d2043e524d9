//! Retiming a node by dragging one of its box's edges: the left edge
//! edits its delay, the right edge its duration (a leaf's only; a block
//! has no duration of its own). Nothing is written until the drag ends;
//! meanwhile a scratch copy of the tree, with the edit applied, is laid
//! out to preview it.

use vstd::prelude::*;

use crate::edit::{Edit, edit_at, edited_node, edited_tree};
use crate::layout::{Placed, folded_view, layout, layout_boxes, placed_views};
use crate::scene::{Block, BlockV, Node, NodeV, delay_of};
use crate::span::{Span, lemma_same_length};
use crate::timing::{delay_len, delay_or_zero};
use crate::tree::{lemma_with_node_same, node_at, node_in};

verus! {

/// Which edge of a box is dragged.
#[derive(Clone, Copy, Debug, PartialEq, Eq, Structural)]
pub enum Handle {
    /// The left edge: the node's delay.
    Delay,
    /// The right edge: a leaf's duration.
    Resize,
}

/// What the dragged edge stands at when the drag starts: the node's
/// delay (none is no time), or a leaf's duration; `None` for a block's
/// right edge, which has no duration to grab, and for a path that no
/// longer names a node.
pub open spec fn edge_start(root: BlockV, path: Seq<usize>, handle: Handle) -> Option<nat> {
    match node_in(root, path) {
        None => None,
        Some(node) => match handle {
            Handle::Delay => Some(delay_len(delay_of(node))),
            Handle::Resize => match node {
                NodeV::Action { action, .. } => Some(action.duration@),
                NodeV::Draft { duration, .. } => Some(duration@),
                NodeV::Block { .. } => None,
            },
        },
    }
}

/// What the dragged edge stands at when the drag starts.
pub fn edge_value(root: &Block, path: &[usize], handle: Handle) -> (r: Option<Span>)
    ensures
        match r {
            Some(s) => edge_start(root@, path@, handle) == Some(s@),
            None => edge_start(root@, path@, handle) is None,
        },
{
    let node = node_at(root, path)?;
    match handle {
        Handle::Delay => match node {
            Node::Action { delay, .. } => Some(delay_or_zero(delay)),
            Node::Block { delay, .. } => Some(delay_or_zero(delay)),
            Node::Draft { delay, .. } => Some(delay_or_zero(delay)),
        },
        Handle::Resize => match node {
            Node::Action { action, .. } => Some(action.duration),
            Node::Draft { duration, .. } => Some(*duration),
            Node::Block { .. } => None,
        },
    }
}

/// The edit a drag of `handle` to `value` makes: a delay of no time
/// clears the delay.
pub open spec fn edge_edit(handle: Handle, value: Span) -> Edit {
    match handle {
        Handle::Delay => Edit::Delay(value),
        Handle::Resize => Edit::Duration(value),
    }
}

/// Dragging an edge back to where it started leaves the tree as it
/// was: what a cancelled drag lays out is the untouched tree. A delay
/// that is there but is no time at all is the one exception: dragging
/// it to no time clears it, which times the node the same.
pub proof fn lemma_back_to_start(root: BlockV, path: Seq<usize>, handle: Handle, value: Span)
    requires
        path.len() > 0,
        edge_start(root, path, handle) == Some(value@),
        !(handle == Handle::Delay && delay_of(node_in(root, path).unwrap()) is Some && value@ == 0),
    ensures
        edited_tree(root, path, edge_edit(handle, value)) == root,
{
    let node = node_in(root, path).unwrap();
    let edited = edited_node(node, edge_edit(handle, value));
    match handle {
        Handle::Delay => {
            if let Some(d) = delay_of(node) {
                lemma_same_length(d, value);
            }
        },
        Handle::Resize => match node {
            NodeV::Action { action, .. } => {
                lemma_same_length(action.duration, value);
                assert(crate::scene::ActionV { duration: value, ..action } == action);
            },
            NodeV::Draft { duration, .. } => {
                lemma_same_length(duration, value);
            },
            NodeV::Block { .. } => {},
        },
    }
    assert(edited == node);
    lemma_with_node_same(root, path);
}

/// A committed drag reads back as what it was dragged to: once the
/// edge of the node at `path` is set to `value`, that edge stands at
/// `value`. Every node has a left edge; only a leaf has a right one.
/// The node's other edge stays where it was.
pub proof fn lemma_commit_reads_back(root: BlockV, path: Seq<usize>, handle: Handle, value: Span)
    requires
        node_in(root, path) is Some,
        handle == Handle::Delay || !(node_in(root, path).unwrap() is Block),
    ensures
        edge_start(edited_tree(root, path, edge_edit(handle, value)), path, handle) == Some(value@),
        ({
            let other = match handle {
                Handle::Delay => Handle::Resize,
                Handle::Resize => Handle::Delay,
            };
            edge_start(edited_tree(root, path, edge_edit(handle, value)), path, other) == edge_start(
                root,
                path,
                other,
            )
        }),
{
    let node = node_in(root, path).unwrap();
    crate::tree::lemma_with_node_in(root, path, edited_node(node, edge_edit(handle, value)));
}

/// Writes a finished drag into the tree: the node at `path` gets its
/// delay, or its duration, set to `value`. Whether `path` named a node.
pub fn commit(root: &mut Block, path: &[usize], handle: Handle, value: Span) -> (r: bool)
    ensures
        r == (node_in(old(root)@, path@) is Some),
        final(root)@ == if path@.len() == 0 {
            old(root)@
        } else {
            edited_tree(old(root)@, path@, edge_edit(handle, value))
        },
{
    if path.len() == 0 {
        return false;
    }
    let edit = match handle {
        Handle::Delay => Edit::Delay(value),
        Handle::Resize => Edit::Duration(value),
    };
    edit_at(root, path, edit)
}

/// The boxes a drag in progress shows: the tree laid out as if the
/// drag had ended with `value`, the tree itself untouched. `None`
/// where `path` names no node.
pub fn preview(root: &Block, path: &[usize], handle: Handle, value: Span, folded: &Vec<Vec<usize>>) -> (r:
    Option<Vec<Placed>>)
    ensures
        match r {
            Some(boxes) => node_in(root@, path@) is Some && placed_views(boxes@) == layout_boxes(
                edited_tree(root@, path@, edge_edit(handle, value)),
                folded_view(folded@),
            ),
            None => node_in(root@, path@) is None,
        },
{
    if path.len() == 0 {
        return None;
    }
    let mut scratch = root.copy();
    let edit = match handle {
        Handle::Delay => Edit::Delay(value),
        Handle::Resize => Edit::Duration(value),
    };
    if !edit_at(&mut scratch, path, edit) {
        return None;
    }
    Some(layout(&scratch, folded))
}

} // verus!
