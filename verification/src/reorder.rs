//! Moving a node elsewhere in the tree: between two of a block's
//! children, or onto another node to wrap the pair in a new block.
//! Action leaves and block headers share this, each just a node at a
//! path.
//!
//! Where a release lands is found on screen; what landing there does
//! to the tree, and to the selection, is decided here.

use vstd::prelude::*;

use crate::prune::{empty_blocks, kept_path, pruned_block, stage, staged_subjects, used_fields};
use crate::scene::{
    Block, BlockV, Combinator, Node, NodeV, Scene, lemma_block_view, lemma_nodes_view,
    subjects_view,
};
use crate::tree::{
    after_removal, block_at, block_in, insert_at, insert_child, is_under, lemma_with_block_in,
    lemma_with_block_same, lemma_with_block_twice, node_in, path_after_removal, path_view,
    remove_at, same_path, take, under, with_block,
};

verus! {

broadcast use {lemma_nodes_view, lemma_block_view};

/// Where a moved node lands.
#[derive(Debug, PartialEq)]
pub enum Target {
    /// Among `parent`'s children, at `index`.
    Insert { parent: Vec<usize>, index: usize },
    /// Onto `path`, wrapping the two of them in a new block under
    /// `combinator`. `before` puts the moved node first.
    Merge { path: Vec<usize>, combinator: Combinator, before: bool },
}

/// The axis a block orders its children along.
#[derive(Clone, Copy, Debug, PartialEq, Eq)]
pub enum Axis {
    X,
    Y,
}

/// Whether `target` puts the node at `from` back exactly where it
/// already is.
pub open spec fn settles(target: Target, from: Seq<usize>) -> bool {
    match target {
        Target::Insert { parent, index } => from.len() == 0 || (parent@ == from.drop_last() && (
        index == from.last() || index == from.last() + 1)),
        Target::Merge { .. } => false,
    }
}

/// Whether `target` puts the node back exactly where it already is.
pub fn settles_where_it_started(target: &Target, from: &[usize]) -> (r: bool)
    ensures
        r == settles(*target, from@),
{
    let Target::Insert { parent, index } = target else {
        return false;
    };
    if from.len() == 0 {
        return true;
    }
    let (from_parent, last) = from.split_at(from.len() - 1);
    assert(from_parent@ == from@.drop_last());
    let from_index = last[0];
    same_path(parent.as_slice(), from_parent) && (*index == from_index || (from_index
        < usize::MAX && *index == from_index + 1))
}

/// What moving the node at `from` to `index` among `parent`'s
/// children leaves: the tree, and where the node landed. `parent`
/// and `index` name the tree as it stood before the move. A move that
/// cannot land still takes the node out.
pub open spec fn inserted(root: BlockV, from: Seq<usize>, parent: Seq<usize>, index: int) -> (
    BlockV,
    Option<Seq<usize>>,
) {
    match node_in(root, from) {
        None => (root, None),
        Some(node) => {
            let removed = remove_at(root, from);
            match path_after_removal(parent, from) {
                None => (removed, None),
                Some(p) => {
                    let idx = if p == from.drop_last() && index > from.last() {
                        index - 1
                    } else {
                        index
                    };
                    match block_in(removed, p) {
                        None => (removed, None),
                        Some(b) => {
                            let at = if idx <= b.children.len() {
                                idx
                            } else {
                                b.children.len() as int
                            };
                            (insert_at(removed, p, at, node), Some(p.push(at as usize)))
                        },
                    }
                },
            }
        },
    }
}

/// A move that settles where it started leaves the tree as it was, and
/// the node where it was: taking the node out and putting it back at
/// the same place among its siblings, before or after itself, is no
/// move at all.
pub proof fn lemma_settled_move_keeps_tree(root: BlockV, from: Seq<usize>, target: Target)
    requires
        from.len() > 0,
        node_in(root, from) is Some,
        target is Insert,
        settles(target, from),
    ensures
        inserted(root, from, target->parent@, target->index as int) == (root, Some(from)),
{
    let parent = target->parent@;
    let index = target->index as int;
    let p = from.drop_last();
    let i = from.last() as int;
    let pb = block_in(root, p).unwrap();
    let node = pb.children[i];
    let shortened = BlockV { children: pb.children.remove(i), ..pb };
    let removed = with_block(root, p, shortened);
    assert(remove_at(root, from) == removed);
    lemma_with_block_in(root, p, shortened);
    assert(path_after_removal(parent, from) == Some(p));
    let refilled = BlockV { children: shortened.children.insert(i, node), ..shortened };
    assert(refilled.children =~= pb.children);
    assert(refilled == pb);
    lemma_with_block_twice(root, p, shortened, refilled);
    lemma_with_block_same(root, p);
    assert(p.push(i as usize) =~= from);
}

/// A move that lands leaves the moved node, unchanged, where it says
/// it landed: as a child of where `parent` ends up, at `index` counted
/// without the node itself, or last where `index` runs past the end.
pub proof fn lemma_insert_lands_node(root: BlockV, from: Seq<usize>, parent: Seq<usize>, index: usize)
    requires
        inserted(root, from, parent, index as int).1 is Some,
    ensures
        node_in(
            inserted(root, from, parent, index as int).0,
            inserted(root, from, parent, index as int).1.unwrap(),
        ) == node_in(root, from),
        inserted(root, from, parent, index as int).1.unwrap().drop_last() == path_after_removal(
            parent,
            from,
        ).unwrap(),
{
    let index = index as int;
    let node = node_in(root, from).unwrap();
    let removed = remove_at(root, from);
    let p = path_after_removal(parent, from).unwrap();
    let idx = if p == from.drop_last() && index > from.last() {
        index - 1
    } else {
        index
    };
    let b = block_in(removed, p).unwrap();
    let at = if idx <= b.children.len() {
        idx
    } else {
        b.children.len() as int
    };
    assert(0 <= at <= b.children.len());
    assert(at <= usize::MAX);
    crate::tree::lemma_insert_at_in(removed, p, at as usize, node);
    assert(p.push(at as usize).drop_last() =~= p);
}

/// A merge that lands puts, where the host now sits, a new unnamed
/// block of the chosen combinator with no delay, holding exactly the
/// pair as they were: the dragged node first when `before`, the host
/// first otherwise; and the dragged node is found where the merge
/// says it landed.
pub proof fn lemma_merge_wraps_pair(
    root: BlockV,
    from: Seq<usize>,
    onto: Seq<usize>,
    combinator: Combinator,
    before: bool,
)
    requires
        merged(root, from, onto, combinator, before).1 is Some,
    ensures
        ({
            let node = node_in(root, from).unwrap();
            let o = path_after_removal(onto, from).unwrap();
            let host = node_in(remove_at(root, from), o).unwrap();
            let result = merged(root, from, onto, combinator, before);
            &&& match node_in(result.0, o) {
                Some(NodeV::Block { delay, block }) => {
                    &&& delay is None
                    &&& block.combinator == combinator
                    &&& block.name is None
                    &&& block.children == if before {
                        seq![node, host]
                    } else {
                        seq![host, node]
                    }
                },
                _ => false,
            }
            &&& result.1 == Some(o.push(if before { 0usize } else { 1usize }))
            &&& node_in(result.0, result.1.unwrap()) == Some(node)
        }),
{
    let node = node_in(root, from).unwrap();
    let removed = remove_at(root, from);
    let o = path_after_removal(onto, from).unwrap();
    let host = node_in(removed, o).unwrap();
    crate::tree::lemma_remove_at_parent(removed, o);
    let w = wrapper(node, host, combinator, before);
    assert(o.drop_last().push(o.last()) =~= o);
    crate::tree::lemma_insert_at_in(remove_at(removed, o), o.drop_last(), o.last(), w);
    let result = merged(root, from, onto, combinator, before).0;
    let k: usize = if before { 0usize } else { 1usize };
    assert(o.push(k).drop_last() =~= o);
    assert(o.push(k).last() == k);
    assert(o.push(k).drop_last().drop_last() =~= o.drop_last());
    let wb = BlockV { combinator, children: if before { seq![node, host] } else { seq![host, node] }, name: None };
    crate::tree::lemma_block_in_concat(result, o.drop_last(), seq![o.last()]);
    assert(o.drop_last() + seq![o.last()] =~= o);
    crate::tree::lemma_node_in_first(block_in(result, o.drop_last()).unwrap(), seq![o.last()]);
    let pb = block_in(result, o.drop_last()).unwrap();
    assert(pb.children[o.last() as int] == w);
    assert(crate::tree::child_block(pb, o.last() as int) == Some(wb));
    assert(seq![o.last()].drop_first() =~= Seq::<usize>::empty());
    assert(seq![o.last()][0] == o.last());
    assert(block_in(wb, Seq::<usize>::empty()) == Some(wb));
    assert(block_in(pb, seq![o.last()]) == Some(wb));
    assert(block_in(result, o) == Some(wb));
}

/// Moves `from` to `index` among `parent`'s children, returning where
/// it landed.
pub fn insert(root: &mut Block, from: &[usize], parent: &[usize], index: usize) -> (r: Option<
    Vec<usize>,
>)
    ensures
        (final(root)@, path_view(r)) == inserted(old(root)@, from@, parent@, index as int),
{
    if from.len() == 0 {
        return None;
    }
    let (from_parent, last) = from.split_at(from.len() - 1);
    assert(from_parent@ == from@.drop_last());
    let from_index = last[0];
    let node = take(root, from)?;
    let parent = after_removal(parent, from)?;
    let index = if same_path(parent.as_slice(), from_parent) && index > from_index {
        index - 1
    } else {
        index
    };
    let at = insert_child(root, parent.as_slice(), index, node)?;
    let mut landed = parent;
    landed.push(at);
    Some(landed)
}

/// The block that wraps a merged pair, `node` first when `before`.
pub open spec fn wrapper(node: NodeV, host: NodeV, combinator: Combinator, before: bool) -> NodeV {
    NodeV::Block {
        delay: None,
        block: BlockV {
            combinator,
            children: if before {
                seq![node, host]
            } else {
                seq![host, node]
            },
            name: None,
        },
    }
}

/// What wrapping the node at `from` and the node at `onto` in a new
/// block, in `onto`'s place, leaves: the tree, and where the moved
/// node landed. `onto` names the tree as it stood before the move. A
/// merge that cannot land still takes the node out.
pub open spec fn merged(
    root: BlockV,
    from: Seq<usize>,
    onto: Seq<usize>,
    combinator: Combinator,
    before: bool,
) -> (BlockV, Option<Seq<usize>>) {
    match node_in(root, from) {
        None => (root, None),
        Some(node) => {
            let removed = remove_at(root, from);
            match path_after_removal(onto, from) {
                None => (removed, None),
                Some(o) => match node_in(removed, o) {
                    None => (removed, None),
                    Some(host) => (
                        insert_at(
                            remove_at(removed, o),
                            o.drop_last(),
                            o.last() as int,
                            wrapper(node, host, combinator, before),
                        ),
                        Some(
                            o.push(
                                if before {
                                    0usize
                                } else {
                                    1usize
                                },
                            ),
                        ),
                    ),
                },
            }
        },
    }
}

/// Wraps `from` and the node at `onto` in a new block, in `onto`'s
/// place, `from` first when `before`. Each keeps its own delay; the
/// wrapper has none. Returns where `from` landed.
pub fn merge(
    root: &mut Block,
    from: &[usize],
    onto: &[usize],
    combinator: Combinator,
    before: bool,
) -> (r: Option<Vec<usize>>)
    ensures
        (final(root)@, path_view(r)) == merged(old(root)@, from@, onto@, combinator, before),
{
    let ghost node_v = node_in(root@, from@);
    let node = take(root, from)?;
    let onto = after_removal(onto, from)?;
    if onto.len() == 0 {
        return None;
    }
    let ghost removed = root@;
    let (onto_parent, last) = onto.as_slice().split_at(onto.len() - 1);
    assert(onto_parent@ == onto@.drop_last());
    let onto_index = last[0];
    let host = take(root, onto.as_slice())?;
    let ghost host_v = host@;
    let children = if before {
        vec![node, host]
    } else {
        vec![host, node]
    };
    let wrapped = Node::Block {
        delay: None,
        block: Block { combinator, children, name: None },
    };
    proof {
        assert(wrapped@ == wrapper(node_v.unwrap(), host_v, combinator, before)) by {
            let b = Block { combinator, children, name: None };
            assert(b@.children =~= if before {
                seq![node_v.unwrap(), host_v]
            } else {
                seq![host_v, node_v.unwrap()]
            });
        }
        let pb = block_in(removed, onto@.drop_last()).unwrap();
        assert(onto_index < pb.children.len());
        let nb = BlockV { children: pb.children.remove(onto_index as int), ..pb };
        lemma_with_block_in(removed, onto@.drop_last(), nb);
    }
    let at = insert_child(root, onto_parent, onto_index, wrapped)?;
    let mut landed = onto;
    landed.push(if before {
        0
    } else {
        1
    });
    Some(landed)
}

/// A moved node lands where [`inserted`] says it does, unchanged.
pub proof fn lemma_insert_lands(root: BlockV, from: Seq<usize>, parent: Seq<usize>, index: int)
    requires
        0 <= index <= usize::MAX,
        inserted(root, from, parent, index).1 is Some,
    ensures
        node_in(inserted(root, from, parent, index).0, inserted(root, from, parent, index).1.unwrap())
            == node_in(root, from),
{
    let node = node_in(root, from).unwrap();
    let removed = remove_at(root, from);
    let p = path_after_removal(parent, from).unwrap();
    let b = block_in(removed, p).unwrap();
    let landed = inserted(root, from, parent, index).1.unwrap();
    let idx = if p == from.drop_last() && index > from.last() {
        index - 1
    } else {
        index
    };
    let at = if idx <= b.children.len() {
        idx
    } else {
        b.children.len() as int
    };
    assert(0 <= at <= b.children.len());
    assert(landed == p.push(at as usize));
    assert(landed.last() as int == at);
    let nb = BlockV { children: b.children.insert(at, node), ..b };
    lemma_with_block_in(removed, p, nb);
    assert(inserted(root, from, parent, index).0 == crate::tree::with_block(removed, p, nb));
    assert(landed.drop_last() =~= p);
    assert(nb.children[at] == node);
}

/// A merged node lands where [`merged`] says it does, unchanged, with
/// the node it was dropped onto beside it.
pub proof fn lemma_merge_lands(
    root: BlockV,
    from: Seq<usize>,
    onto: Seq<usize>,
    combinator: Combinator,
    before: bool,
)
    requires
        merged(root, from, onto, combinator, before).1 is Some,
    ensures
        node_in(
            merged(root, from, onto, combinator, before).0,
            merged(root, from, onto, combinator, before).1.unwrap(),
        ) == node_in(root, from),
{
    let node = node_in(root, from).unwrap();
    let removed = remove_at(root, from);
    let o = path_after_removal(onto, from).unwrap();
    let host = node_in(removed, o).unwrap();
    let pb = block_in(removed, o.drop_last()).unwrap();
    let nb = BlockV { children: pb.children.remove(o.last() as int), ..pb };
    let without = remove_at(removed, o);
    lemma_with_block_in(removed, o.drop_last(), nb);
    let w = wrapper(node, host, combinator, before);
    let nb2 = BlockV { children: nb.children.insert(o.last() as int, w), ..nb };
    lemma_with_block_in(without, o.drop_last(), nb2);
    let after = merged(root, from, onto, combinator, before).0;
    let landed = merged(root, from, onto, combinator, before).1.unwrap();
    assert(landed.drop_last() =~= o);
    assert(o =~= o.drop_last().push(o.last()));
    crate::tree::lemma_block_in_concat(after, o.drop_last(), seq![o.last()]);
    assert(o.drop_last() + seq![o.last()] =~= o);
    let wb = BlockV {
        combinator,
        children: if before {
            seq![node, host]
        } else {
            seq![host, node]
        },
        name: None,
    };
    assert(nb2.children[o.last() as int] == w);
    assert(crate::tree::child_block(nb2, o.last() as int) == Some(wb));
    assert(seq![o.last()].drop_first() =~= Seq::<usize>::empty());
    assert(block_in(wb, seq![o.last()].drop_first()) == Some(wb));
    assert(block_in(nb2, seq![o.last()]) == Some(wb));
}

/// The part of `path` past `prefix`, which it sits under.
fn tail_after(path: &Vec<usize>, from: usize) -> (r: Vec<usize>)
    requires
        from <= path.len(),
    ensures
        r@ == path@.skip(from as int),
{
    let mut out: Vec<usize> = Vec::new();
    let mut k = from;
    while k < path.len()
        invariant
            from <= k <= path.len(),
            out@ == path@.subrange(from as int, k as int),
        decreases path.len() - k,
    {
        out.push(path[k]);
        assert(path@.subrange(from as int, k + 1) =~= path@.subrange(from as int, k as int).push(
            path@[k as int],
        ));
        k = k + 1;
    }
    out
}

/// `head` followed by `tail`.
fn joined(head: Vec<usize>, tail: &Vec<usize>) -> (r: Vec<usize>)
    ensures
        r@ == head@ + tail@,
{
    let mut out = head;
    let ghost start = out@;
    let mut k: usize = 0;
    while k < tail.len()
        invariant
            k <= tail.len(),
            out@ == start + tail@.take(k as int),
        decreases tail.len() - k,
    {
        out.push(tail[k]);
        assert(tail@.take(k + 1) =~= tail@.take(k as int).push(tail@[k as int]));
        assert(start + tail@.take(k + 1) =~= (start + tail@.take(k as int)).push(tail@[k as int]));
        k = k + 1;
    }
    assert(tail@.take(k as int) =~= tail@);
    out
}

/// What a move to `target` does to the tree before pruning, and where
/// it lands the node.
pub open spec fn moved(root: BlockV, from: Seq<usize>, target: Target) -> (BlockV, Option<Seq<usize>>) {
    match target {
        Target::Insert { parent, index } => inserted(root, from, parent@, index as int),
        Target::Merge { path, combinator, before } => merged(
            root,
            from,
            path@,
            combinator,
            before,
        ),
    }
}

/// The selection once the node at `from` has landed at `landed`: a
/// selection on the moved node, or inside it, follows it there and
/// through the pruning after; any other is left alone.
pub open spec fn selection_after_move(
    tree: BlockV,
    from: Seq<usize>,
    landed: Seq<usize>,
    selected: Option<Seq<usize>>,
) -> Option<Seq<usize>> {
    match selected {
        Some(s) => if is_under(s, from) {
            kept_path(tree, landed + s.skip(from.len() as int))
        } else {
            selected
        },
        None => None,
    }
}

/// What writing a move of the node at `from` to `target` leaves: the
/// tree, pruned of the blocks the move empties, and the selection,
/// carried along with the node if it named the node or something in
/// it. A move that cannot land leaves the tree with the node taken out
/// and the selection as it was.
pub open spec fn after_commit(root: BlockV, from: Seq<usize>, target: Target, selected: Option<Seq<usize>>) -> (
    BlockV,
    Option<Seq<usize>>,
) {
    match moved(root, from, target) {
        (tree, Some(landed)) => (pruned_block(tree), selection_after_move(tree, from, landed, selected)),
        (tree, None) => (tree, selected),
    }
}

/// Writes a move of the node at `from` to `target` into the tree,
/// prunes the blocks it leaves empty, and moves the selection along
/// with the node if it named the node or something inside it.
pub fn commit(
    root: &mut Block,
    from: &[usize],
    target: &Target,
    selected: &mut Option<Vec<usize>>,
)
    ensures
        (final(root)@, path_view(*final(selected))) == after_commit(
            old(root)@,
            from@,
            *target,
            path_view(*old(selected)),
        ),
{
    let selected_tail = match selected {
        Some(path) => if under(path.as_slice(), from) {
            Some(tail_after(path, from.len()))
        } else {
            None
        },
        None => None,
    };
    let landed = match target {
        Target::Insert { parent, index } => insert(root, from, parent.as_slice(), *index),
        Target::Merge { path, combinator, before } => merge(
            root,
            from,
            path.as_slice(),
            *combinator,
            *before,
        ),
    };
    let Some(landed) = landed else {
        return;
    };
    let mut kept = match selected_tail {
        Some(tail) => Some(joined(landed, &tail)),
        None => None,
    };
    empty_blocks(root, &mut kept);
    let follows = match selected {
        Some(path) => under(path.as_slice(), from),
        None => false,
    };
    if follows {
        *selected = kept;
    }
}

/// What releasing a dragged node does: nothing when it was dropped
/// nowhere or where it already is, and the move written otherwise.
/// Whether it wrote anything.
pub fn release(
    root: &mut Block,
    from: &[usize],
    target: Option<Target>,
    selected: &mut Option<Vec<usize>>,
) -> (r: bool)
    ensures
        r == (target matches Some(t) && !settles(t, from@)),
        !r ==> final(root)@ == old(root)@ && path_view(*final(selected)) == path_view(*old(selected)),
        r ==> (final(root)@, path_view(*final(selected))) == after_commit(
            old(root)@,
            from@,
            target.unwrap(),
            path_view(*old(selected)),
        ),
{
    let Some(target) = target else {
        return false;
    };
    if settles_where_it_started(&target, from) {
        return false;
    }
    commit(root, from, &target, selected);
    true
}

/// Removes the node at `path`, pruning any block left empty by it and
/// any stage entry no action drives anymore, and rebases or clears
/// the selection the same way. `false`, changing nothing, where
/// `path` names no node.
pub fn delete(scene: &mut Scene, path: &[usize], selected: &mut Option<Vec<usize>>) -> (r: bool)
    ensures
        r == node_in(old(scene).animation@, path@) is Some,
        !r ==> final(scene).animation@ == old(scene).animation@,
        !r ==> subjects_view(final(scene).stage.subjects@) == subjects_view(
            old(scene).stage.subjects@,
        ),
        !r ==> path_view(*final(selected)) == path_view(*old(selected)),
        r ==> final(scene).animation@ == pruned_block(remove_at(old(scene).animation@, path@)),
        r ==> subjects_view(final(scene).stage.subjects@) == staged_subjects(
            subjects_view(old(scene).stage.subjects@),
            used_fields(pruned_block(remove_at(old(scene).animation@, path@))),
        ),
        r ==> path_view(*final(selected)) == match path_view(*old(selected)) {
            Some(s) => match path_after_removal(s, path@) {
                Some(p) => kept_path(remove_at(old(scene).animation@, path@), p),
                None => None,
            },
            None => None,
        },
{
    let mut kept = match selected {
        Some(s) => after_removal(s.as_slice(), path),
        None => None,
    };
    if take(&mut scene.animation, path).is_none() {
        return false;
    }
    empty_blocks(&mut scene.animation, &mut kept);
    stage(scene);
    *selected = kept;
    true
}

/// The axis the block at `path` orders its children along: across
/// for a chain, down for anything that overlaps.
pub fn axis_of(root: &Block, path: &[usize]) -> (r: Option<Axis>)
    ensures
        r == match block_in(root@, path@) {
            Some(b) => Some(
                match b.combinator {
                    Combinator::Chain => Axis::X,
                    _ => Axis::Y,
                },
            ),
            None => None,
        },
{
    let block = block_at(root, path)?;
    Some(
        match block.combinator {
            Combinator::Chain => Axis::X,
            _ => Axis::Y,
        },
    )
}

/// Where inside a child's box a release lands.
#[derive(Clone, Copy, Debug, PartialEq, Eq)]
pub enum Zone {
    /// In the margin round its edge, on the near or far side of its
    /// middle along the block's axis: a drop beside it.
    Edge { past_middle: bool },
    /// In the leading quarter of its core: chained before it.
    Start,
    /// In the trailing quarter of its core: chained after it.
    End,
    /// In the middle of its core: run alongside it.
    Middle,
}

/// The target a release on the `index`th child of the block at
/// `parent` lands at, given where in the child's box it lands. `None`
/// where `parent` names no block.
///
/// Near the child's edge the drop goes beside it. In its core it asks
/// for a chain (either end) or an overlap (the middle): a block
/// already running its children that way takes the node in as a
/// sibling, and otherwise the pair is wrapped in a new block.
pub fn land_on(root: &Block, parent: &[usize], index: usize, zone: Zone) -> (r: Option<Target>)
    requires
        index < usize::MAX,
    ensures
        r is Some <==> block_in(root@, parent@) is Some,
        r matches Some(t) ==> match zone {
            Zone::Edge { past_middle } => t == Target::Insert {
                parent: t->parent,
                index: if past_middle {
                    (index + 1) as usize
                } else {
                    index
                },
            } && t->parent@ == parent@,
            _ => {
                let wanted = if zone == Zone::Middle {
                    Combinator::All
                } else {
                    Combinator::Chain
                };
                let before = zone == Zone::Start;
                let child = parent@.push(index);
                let outer = block_in(root@, parent@).unwrap();
                if wanted == outer.combinator {
                    &&& t is Insert
                    &&& t->parent@ == parent@
                    &&& t->index == if before {
                        index
                    } else {
                        (index + 1) as usize
                    }
                } else if block_in(root@, child) is Some && block_in(root@, child).unwrap().combinator
                    == wanted {
                    &&& t is Insert
                    &&& t->parent@ == child
                    &&& t->index == if before {
                        0
                    } else {
                        block_in(root@, child).unwrap().children.len() as usize
                    }
                } else {
                    &&& t is Merge
                    &&& t->path@ == child
                    &&& t->combinator == wanted
                    &&& t->Merge_before == before
                }
            },
        },
{
    let outer = block_at(root, parent)?;
    let combinator = outer.combinator;
    let (wanted, before) = match zone {
        Zone::Edge { past_middle } => {
            let at = if past_middle {
                index + 1
            } else {
                index
            };
            return Some(Target::Insert { parent: vstd::slice::slice_to_vec(parent), index: at });
        },
        Zone::Start => (Combinator::Chain, true),
        Zone::End => (Combinator::Chain, false),
        Zone::Middle => (Combinator::All, false),
    };
    if wanted == combinator {
        let at = if before {
            index
        } else {
            index + 1
        };
        return Some(Target::Insert { parent: vstd::slice::slice_to_vec(parent), index: at });
    }
    let mut child = vstd::slice::slice_to_vec(parent);
    child.push(index);
    if let Some(inner) = block_at(root, child.as_slice()) {
        if inner.combinator == wanted {
            let at = if before {
                0
            } else {
                inner.children.len()
            };
            return Some(Target::Insert { parent: child, index: at });
        }
    }
    Some(Target::Merge { path: child, combinator: wanted, before })
}

} // verus!
