//! The drop a body drag ends in, where a merge hands the host's delay
//! to the wrapper: the dragged node lands beside another, or is
//! wrapped together with it in a new block that takes over the other's
//! delay.

use vstd::prelude::*;

use crate::prune::{empty_blocks, pruned_block};
use crate::reorder::{Target, Zone, inserted};
use crate::scene::{Block, BlockV, Combinator, Node, NodeV, lemma_block_view, lemma_nodes_view};
use crate::span::Span;
use crate::tree::{
    after_removal, block_at, block_in, insert_at, insert_child, lemma_with_block_in, node_in,
    path_after_removal, remove_at, take,
};

verus! {

broadcast use {lemma_nodes_view, lemma_block_view};

/// Moves `from` to `index` among `parent`'s children. `None` where
/// the move does not land; the node is taken out all the same.
pub fn insert(root: &mut Block, from: &[usize], parent: &[usize], index: usize) -> (r: Option<()>)
    ensures
        final(root)@ == inserted(old(root)@, from@, parent@, index as int).0,
        r is Some <==> inserted(old(root)@, from@, parent@, index as int).1 is Some,
{
    match crate::reorder::insert(root, from, parent, index) {
        Some(_) => Some(()),
        None => None,
    }
}

/// `node` with no delay of its own.
pub open spec fn undelayed(node: NodeV) -> NodeV {
    match node {
        NodeV::Action { action, .. } => NodeV::Action { delay: None, action },
        NodeV::Block { block, .. } => NodeV::Block { delay: None, block },
        NodeV::Draft { duration, name, .. } => NodeV::Draft { delay: None, duration, name },
    }
}

/// The block that wraps a merged pair, starting where the node it
/// replaces did: that node's delay moves out to it, and neither child
/// keeps one.
pub open spec fn hoisted_wrapper(node: NodeV, host: NodeV, combinator: Combinator, before: bool) -> NodeV {
    NodeV::Block {
        delay: crate::scene::delay_of(host),
        block: BlockV {
            combinator,
            children: if before {
                seq![undelayed(node), undelayed(host)]
            } else {
                seq![undelayed(host), undelayed(node)]
            },
            name: None,
        },
    }
}

/// What wrapping `from` and `onto` in a new block leaves, the wrapper
/// taking over `onto`'s delay. `None` where it does not land; the
/// node is taken out all the same.
pub open spec fn merged_hoisting(
    root: BlockV,
    from: Seq<usize>,
    onto: Seq<usize>,
    combinator: Combinator,
    before: bool,
) -> (BlockV, bool) {
    match node_in(root, from) {
        None => (root, false),
        Some(node) => {
            let removed = remove_at(root, from);
            match path_after_removal(onto, from) {
                None => (removed, false),
                Some(o) => match node_in(removed, o) {
                    None => (removed, false),
                    Some(host) => (
                        insert_at(
                            remove_at(removed, o),
                            o.drop_last(),
                            o.last() as int,
                            hoisted_wrapper(node, host, combinator, before),
                        ),
                        true,
                    ),
                },
            }
        },
    }
}

/// A merge that lands puts, where the host now sits, a new unnamed
/// block of the chosen combinator that starts where the host did and
/// holds exactly the pair, neither with a delay of its own: the
/// dragged node first when `before`, the host first otherwise.
pub proof fn lemma_merge_wraps_pair(
    root: BlockV,
    from: Seq<usize>,
    onto: Seq<usize>,
    combinator: Combinator,
    before: bool,
)
    requires
        merged_hoisting(root, from, onto, combinator, before).1,
    ensures
        ({
            let node = node_in(root, from).unwrap();
            let o = path_after_removal(onto, from).unwrap();
            let host = node_in(remove_at(root, from), o).unwrap();
            let (first, second) = if before {
                (node, host)
            } else {
                (host, node)
            };
            match node_in(merged_hoisting(root, from, onto, combinator, before).0, o) {
                Some(NodeV::Block { delay, block }) => {
                    &&& delay == crate::scene::delay_of(host)
                    &&& block.combinator == combinator
                    &&& block.name is None
                    &&& block.children.len() == 2
                    &&& block.children[0] == undelayed(first)
                    &&& block.children[1] == undelayed(second)
                    &&& crate::scene::delay_of(block.children[0]) is None
                    &&& crate::scene::delay_of(block.children[1]) is None
                },
                _ => false,
            }
        }),
{
    let node = node_in(root, from).unwrap();
    let removed = remove_at(root, from);
    let o = path_after_removal(onto, from).unwrap();
    let host = node_in(removed, o).unwrap();
    crate::tree::lemma_remove_at_parent(removed, o);
    let w = hoisted_wrapper(node, host, combinator, before);
    assert(o.drop_last().push(o.last()) =~= o);
    crate::tree::lemma_insert_at_in(remove_at(removed, o), o.drop_last(), o.last(), w);
}

/// Takes `node`'s delay out, leaving it with none.
fn take_delay(node: &mut Node) -> (r: Option<Span>)
    ensures
        r == crate::scene::delay_of(old(node)@),
        final(node)@ == undelayed(old(node)@),
{
    match node {
        Node::Action { delay, .. } => {
            let d = *delay;
            *delay = None;
            d
        },
        Node::Block { delay, .. } => {
            let d = *delay;
            *delay = None;
            d
        },
        Node::Draft { delay, .. } => {
            let d = *delay;
            *delay = None;
            d
        },
    }
}

/// Wraps `from` and the node at `onto` in a new block, in `onto`'s
/// place, `from` first when `before`. The pair starts where the
/// replaced node did: its delay moves out to the wrapper, and neither
/// child keeps a head start.
pub fn merge(
    root: &mut Block,
    from: &[usize],
    onto: &[usize],
    combinator: Combinator,
    before: bool,
) -> (r: Option<()>)
    ensures
        (final(root)@, r is Some) == merged_hoisting(old(root)@, from@, onto@, combinator, before),
{
    let ghost node_v = node_in(root@, from@);
    let mut node = take(root, from)?;
    let onto = after_removal(onto, from)?;
    if onto.len() == 0 {
        return None;
    }
    let ghost removed = root@;
    let (onto_parent, last) = onto.as_slice().split_at(onto.len() - 1);
    assert(onto_parent@ == onto@.drop_last());
    let onto_index = last[0];
    let mut host = take(root, onto.as_slice())?;
    let ghost host_v = host@;
    let delay = take_delay(&mut host);
    let _ = take_delay(&mut node);
    let ghost node_u = node@;
    let ghost host_u = host@;
    let children = if before {
        vec![node, host]
    } else {
        vec![host, node]
    };
    let wrapped = Node::Block { delay, block: Block { combinator, children, name: None } };
    proof {
        assert(wrapped@ == hoisted_wrapper(node_v.unwrap(), host_v, combinator, before)) by {
            let b = Block { combinator, children, name: None };
            assert(b@.children =~= if before {
                seq![node_u, host_u]
            } else {
                seq![host_u, node_u]
            });
        }
        let pb = block_in(removed, onto@.drop_last()).unwrap();
        let nb = BlockV { children: pb.children.remove(onto_index as int), ..pb };
        lemma_with_block_in(removed, onto@.drop_last(), nb);
    }
    insert_child(root, onto_parent, onto_index, wrapped)?;
    Some(())
}

/// Drops every empty block, innermost first so one emptied by losing
/// its last nested block goes too. The root stays, empty or not.
pub fn prune_empty(block: &mut Block)
    ensures
        final(block)@ == pruned_block(old(block)@),
{
    let mut keep: Option<Vec<usize>> = None;
    empty_blocks(block, &mut keep);
}

/// Writes a drop of the node at `from` onto `target` into the tree,
/// then prunes whatever it left empty. `false` where the drop did not
/// land, leaving the tree with the node taken out and no pruning.
pub fn commit(root: &mut Block, from: &[usize], target: &Target) -> (r: bool)
    ensures
        match *target {
            Target::Insert { parent, index } => {
                let (tree, landed) = inserted(old(root)@, from@, parent@, index as int);
                &&& r == landed is Some
                &&& final(root)@ == if r {
                    pruned_block(tree)
                } else {
                    tree
                }
            },
            Target::Merge { path, combinator, before } => {
                let (tree, landed) = merged_hoisting(old(root)@, from@, path@, combinator, before);
                &&& r == landed
                &&& final(root)@ == if r {
                    pruned_block(tree)
                } else {
                    tree
                }
            },
        },
{
    let landed = match target {
        Target::Insert { parent, index } => insert(root, from, parent.as_slice(), *index),
        Target::Merge { path, combinator, before } => merge(
            root,
            from,
            path.as_slice(),
            *combinator,
            *before,
        ),
    };
    if landed.is_none() {
        return false;
    }
    prune_empty(root);
    true
}

/// The target a release on the `index`th child of the block at
/// `parent` lands at, given where in the child's box it lands. `None`
/// where `parent` names no block.
///
/// Near the child's edge the drop goes beside it. In its core it asks
/// for a chain (either end) or an overlap (the middle): a sibling
/// where the block already runs its children that way, and otherwise
/// the pair wrapped in a new block.
pub fn land_on(root: &Block, parent: &[usize], index: usize, zone: Zone) -> (r: Option<Target>)
    requires
        index < usize::MAX,
    ensures
        r is Some <==> block_in(root@, parent@) is Some,
        r matches Some(t) ==> match zone {
            Zone::Edge { past_middle } => {
                &&& t is Insert
                &&& t->parent@ == parent@
                &&& t->index == if past_middle {
                    (index + 1) as usize
                } else {
                    index
                }
            },
            _ => {
                let wanted = if zone == Zone::Middle {
                    Combinator::All
                } else {
                    Combinator::Chain
                };
                let before = zone == Zone::Start;
                if wanted == block_in(root@, parent@).unwrap().combinator {
                    &&& t is Insert
                    &&& t->parent@ == parent@
                    &&& t->index == if before {
                        index
                    } else {
                        (index + 1) as usize
                    }
                } else {
                    &&& t is Merge
                    &&& t->path@ == parent@.push(index)
                    &&& t->combinator == wanted
                    &&& t->Merge_before == before
                }
            },
        },
{
    let outer = block_at(root, parent)?;
    let (wanted, before) = match zone {
        Zone::Edge { past_middle } => {
            let at = if past_middle {
                index + 1
            } else {
                index
            };
            return Some(Target::Insert { parent: vstd::slice::slice_to_vec(parent), index: at });
        },
        Zone::Start => (Combinator::Chain, true),
        Zone::End => (Combinator::Chain, false),
        Zone::Middle => (Combinator::All, false),
    };
    if wanted == outer.combinator {
        let at = if before {
            index
        } else {
            index + 1
        };
        return Some(Target::Insert { parent: vstd::slice::slice_to_vec(parent), index: at });
    }
    let mut path = vstd::slice::slice_to_vec(parent);
    path.push(index);
    Some(Target::Merge { path, combinator: wanted, before })
}

} // verus!
