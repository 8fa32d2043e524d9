//! Naming nodes of an animation tree by path, and editing the tree at
//! a path.
//!
//! A path is the child index at each depth, root first. The empty
//! path names the root block itself, which no `Node` wraps.

use vstd::prelude::*;

use crate::scene::{
    Block, BlockV, Combinator, Node, NodeV, delay_of, lemma_block_view, lemma_nodes_view,
    lemma_nodes_view_ext, node_view,
};

verus! {

broadcast use {lemma_nodes_view, lemma_block_view};

/// Whether `path` is `prefix` itself or sits under it.
pub open spec fn is_under(path: Seq<usize>, prefix: Seq<usize>) -> bool {
    path.len() >= prefix.len() && path.take(prefix.len() as int) == prefix
}

/// Whether `path` names a direct child of `parent`.
pub open spec fn is_child_path(path: Seq<usize>, parent: Seq<usize>) -> bool {
    path.len() == parent.len() + 1 && path.take(parent.len() as int) == parent
}

/// The `i`th child of `block`, if it is a block.
pub open spec fn child_block(block: BlockV, i: int) -> Option<BlockV> {
    if 0 <= i < block.children.len() {
        match block.children[i] {
            NodeV::Block { block: inner, .. } => Some(inner),
            _ => None,
        }
    } else {
        None
    }
}

/// The block `path` names: `root` itself for the empty path, `None`
/// where the path runs off the tree or through a leaf.
pub open spec fn block_in(root: BlockV, path: Seq<usize>) -> Option<BlockV>
    decreases path.len(),
{
    if path.len() == 0 {
        Some(root)
    } else {
        match child_block(root, path[0] as int) {
            Some(inner) => block_in(inner, path.drop_first()),
            None => None,
        }
    }
}

/// The node `path` names. The empty path names the root, which is no
/// node.
pub open spec fn node_in(root: BlockV, path: Seq<usize>) -> Option<NodeV> {
    if path.len() == 0 {
        None
    } else {
        match block_in(root, path.drop_last()) {
            Some(parent) => if path.last() < parent.children.len() {
                Some(parent.children[path.last() as int])
            } else {
                None
            },
            None => None,
        }
    }
}

/// `root` with the block at `path` swapped for `sub`; `root` itself
/// where `path` names no block.
pub open spec fn with_block(root: BlockV, path: Seq<usize>, sub: BlockV) -> BlockV
    decreases path.len(),
{
    if path.len() == 0 {
        sub
    } else {
        let i = path[0] as int;
        match child_block(root, i) {
            Some(inner) => BlockV {
                children: root.children.update(
                    i,
                    NodeV::Block {
                        delay: delay_of(root.children[i]),
                        block: with_block(inner, path.drop_first(), sub),
                    },
                ),
                ..root
            },
            None => root,
        }
    }
}

/// `root` with the node at `path` taken out; `root` itself where
/// `path` names no node.
pub open spec fn remove_at(root: BlockV, path: Seq<usize>) -> BlockV {
    if path.len() == 0 {
        root
    } else {
        match block_in(root, path.drop_last()) {
            Some(parent) => if path.last() < parent.children.len() {
                with_block(
                    root,
                    path.drop_last(),
                    BlockV { children: parent.children.remove(path.last() as int), ..parent },
                )
            } else {
                root
            },
            None => root,
        }
    }
}

/// `root` with the node at `path` swapped for `node`; `root` itself
/// where `path` names no node.
pub open spec fn with_node(root: BlockV, path: Seq<usize>, node: NodeV) -> BlockV {
    match node_in(root, path) {
        Some(_) => {
            let parent = block_in(root, path.drop_last()).unwrap();
            with_block(
                root,
                path.drop_last(),
                BlockV { children: parent.children.update(path.last() as int, node), ..parent },
            )
        },
        None => root,
    }
}

/// `root` with `node` put in as the `index`th child of the block at
/// `parent`.
pub open spec fn insert_at(root: BlockV, parent: Seq<usize>, index: int, node: NodeV) -> BlockV {
    match block_in(root, parent) {
        Some(b) => with_block(
            root,
            parent,
            BlockV { children: b.children.insert(index, node), ..b },
        ),
        None => root,
    }
}

/// Where `path` ends up once the node at `removed` is taken out:
/// `None` for a path inside that node, which goes with it, and for an
/// empty `removed`, which names no node.
pub open spec fn path_after_removal(path: Seq<usize>, removed: Seq<usize>) -> Option<Seq<usize>> {
    if removed.len() == 0 {
        None
    } else {
        let parent = removed.drop_last();
        let index = removed.last();
        let depth = parent.len() as int;
        if path.len() <= parent.len() || path.take(depth) != parent {
            Some(path)
        } else if path[depth] == index {
            None
        } else if path[depth] > index {
            Some(path.update(depth, (path[depth] - 1) as usize))
        } else {
            Some(path)
        }
    }
}

/// An optional path, as a sequence.
pub open spec fn path_view(path: Option<Vec<usize>>) -> Option<Seq<usize>> {
    match path {
        Some(p) => Some(p@),
        None => None,
    }
}

/// An optional node, as plain values.
pub open spec fn opt_node_view(node: Option<Node>) -> Option<NodeV> {
    match node {
        Some(n) => Some(n@),
        None => None,
    }
}

/// An optional block, as plain values.
pub open spec fn opt_block_view(block: Option<Block>) -> Option<BlockV> {
    match block {
        Some(b) => Some(b@),
        None => None,
    }
}

/// A block with nothing in it, standing in for one taken out.
fn placeholder() -> (r: Block)
    ensures
        r@ == (BlockV { combinator: Combinator::Chain, children: Seq::empty(), name: None }),
{
    let r = Block { combinator: Combinator::Chain, children: Vec::new(), name: None };
    assert(r@ =~= BlockV { combinator: Combinator::Chain, children: Seq::empty(), name: None });
    r
}

/// Swapping in a block leaves it where it was put.
pub proof fn lemma_with_block_in(root: BlockV, path: Seq<usize>, sub: BlockV)
    requires
        block_in(root, path) is Some,
    ensures
        block_in(with_block(root, path, sub), path) == Some(sub),
    decreases path.len(),
{
    if path.len() > 0 {
        let i = path[0] as int;
        let inner = child_block(root, i).unwrap();
        lemma_with_block_in(inner, path.drop_first(), sub);
    }
}

/// A second swap at the same path overrides the first.
pub proof fn lemma_with_block_twice(root: BlockV, path: Seq<usize>, a: BlockV, b: BlockV)
    requires
        block_in(root, path) is Some,
    ensures
        with_block(with_block(root, path, a), path, b) == with_block(root, path, b),
    decreases path.len(),
{
    if path.len() > 0 {
        let i = path[0] as int;
        let inner = child_block(root, i).unwrap();
        lemma_with_block_twice(inner, path.drop_first(), a, b);
        assert(with_block(with_block(root, path, a), path, b).children =~= with_block(
            root,
            path,
            b,
        ).children);
    }
}

/// Swapping a block for itself changes nothing.
pub proof fn lemma_with_block_same(root: BlockV, path: Seq<usize>)
    requires
        block_in(root, path) is Some,
    ensures
        with_block(root, path, block_in(root, path).unwrap()) == root,
    decreases path.len(),
{
    if path.len() > 0 {
        let i = path[0] as int;
        let inner = child_block(root, i).unwrap();
        lemma_with_block_same(inner, path.drop_first());
        assert(with_block(root, path, block_in(root, path).unwrap()).children =~= root.children);
    }
}

/// Moves the block at `path` out of the tree, leaving an empty one in
/// its place.
fn block_take(root: &mut Block, path: &[usize]) -> (r: Option<Block>)
    ensures
        opt_block_view(r) == block_in(old(root)@, path@),
        r is Some ==> final(root)@ == with_block(
            old(root)@,
            path@,
            BlockV { combinator: Combinator::Chain, children: Seq::empty(), name: None },
        ),
        r is None ==> final(root)@ == old(root)@,
    decreases path.len(),
{
    if path.len() == 0 {
        let mut out = placeholder();
        core::mem::swap(root, &mut out);
        assert(root@ =~= BlockV {
            combinator: Combinator::Chain,
            children: Seq::empty(),
            name: None,
        });
        return Some(out);
    }
    let i = path[0];
    if i >= root.children.len() {
        return None;
    }
    let is_block = match &root.children[i] {
        Node::Block { .. } => true,
        _ => false,
    };
    if !is_block {
        return None;
    }
    let (_, rest) = path.split_at(1);
    assert(rest@ == path@.drop_first());
    let ghost before = *root;
    let mut child = root.children.remove(i);
    let r = match &mut child {
        Node::Block { block, .. } => block_take(block, rest),
        _ => None,
    };
    let ghost after = child;
    root.children.insert(i, child);
    proof {
        assert(root.children@ == before.children@.update(i as int, after));
        lemma_nodes_view_ext(
            root.children@,
            before@.children.update(i as int, node_view(after)),
        );
        if r is None {
            assert(root@.children =~= before@.children);
        }
    }
    r
}

/// Puts `sub` in as the block at `path`.
fn block_put(root: &mut Block, path: &[usize], sub: Block)
    requires
        block_in(old(root)@, path@) is Some,
    ensures
        final(root)@ == with_block(old(root)@, path@, sub@),
    decreases path.len(),
{
    if path.len() == 0 {
        *root = sub;
        return;
    }
    let i = path[0];
    let (_, rest) = path.split_at(1);
    assert(rest@ == path@.drop_first());
    let ghost before = *root;
    let mut child = root.children.remove(i);
    match &mut child {
        Node::Block { block, .. } => block_put(block, rest, sub),
        _ => {},
    }
    let ghost after = child;
    root.children.insert(i, child);
    proof {
        assert(root.children@ == before.children@.update(i as int, after));
        lemma_nodes_view_ext(
            root.children@,
            before@.children.update(i as int, node_view(after)),
        );
    }
}

/// Pulls the node at `path` out of the tree. `None`, leaving the tree
/// as it was, where `path` names no node.
pub fn take(root: &mut Block, path: &[usize]) -> (r: Option<Node>)
    ensures
        opt_node_view(r) == node_in(old(root)@, path@),
        final(root)@ == remove_at(old(root)@, path@),
{
    if path.len() == 0 {
        return None;
    }
    let (parent, last) = path.split_at(path.len() - 1);
    let index = last[0];
    assert(parent@ == path@.drop_last());
    let ghost before = root@;
    let Some(mut block) = block_take(root, parent) else {
        return None;
    };
    let ghost empty = BlockV { combinator: Combinator::Chain, children: Seq::empty(), name: None };
    proof {
        lemma_with_block_in(before, parent@, empty);
    }
    if index >= block.children.len() {
        block_put(root, parent, block);
        proof {
            lemma_with_block_twice(before, parent@, empty, block@);
            lemma_with_block_same(before, parent@);
        }
        return None;
    }
    let ghost old_block = block;
    let node = block.children.remove(index);
    proof {
        assert(block@.children =~= old_block@.children.remove(index as int));
        assert(block@ == BlockV { children: old_block@.children.remove(index as int), ..old_block@ });
    }
    block_put(root, parent, block);
    proof {
        lemma_with_block_twice(before, parent@, empty, block@);
    }
    Some(node)
}

/// A node put in at `index` among a block's children is found there.
pub proof fn lemma_insert_at_in(root: BlockV, parent: Seq<usize>, index: usize, node: NodeV)
    requires
        block_in(root, parent) is Some,
        index <= block_in(root, parent).unwrap().children.len(),
    ensures
        node_in(insert_at(root, parent, index as int, node), parent.push(index)) == Some(node),
{
    let b = block_in(root, parent).unwrap();
    let nb = BlockV { children: b.children.insert(index as int, node), ..b };
    lemma_with_block_in(root, parent, nb);
    assert(parent.push(index).drop_last() =~= parent);
    assert(parent.push(index).last() == index);
}

/// A block put in at `index` among a block's children has its own
/// children found under it.
pub proof fn lemma_insert_at_child(
    root: BlockV,
    parent: Seq<usize>,
    index: usize,
    delay: Option<crate::span::Span>,
    block: BlockV,
    k: usize,
)
    requires
        block_in(root, parent) is Some,
        index <= block_in(root, parent).unwrap().children.len(),
        k < block.children.len(),
    ensures
        node_in(insert_at(root, parent, index as int, NodeV::Block { delay, block }), parent.push(index).push(k))
            == Some(block.children[k as int]),
{
    let w = NodeV::Block { delay, block };
    let result = insert_at(root, parent, index as int, w);
    lemma_insert_at_in(root, parent, index, w);
    let o = parent.push(index);
    assert(o.drop_last() =~= parent);
    assert(o.push(k).drop_last() =~= o);
    assert(o.push(k).last() == k);
    lemma_block_in_concat(result, parent, seq![index]);
    assert(parent + seq![index] =~= o);
    let pb = block_in(result, parent).unwrap();
    assert(pb.children[index as int] == w);
    assert(child_block(pb, index as int) == Some(block));
    assert(seq![index].drop_first() =~= Seq::<usize>::empty());
    assert(seq![index][0] == index);
    assert(block_in(block, Seq::<usize>::empty()) == Some(block));
    assert(block_in(pb, seq![index]) == Some(block));
    assert(block_in(result, o) == Some(block));
}

/// Taking a node out leaves its parent block one child short there.
pub proof fn lemma_remove_at_parent(root: BlockV, path: Seq<usize>)
    requires
        node_in(root, path) is Some,
    ensures
        block_in(remove_at(root, path), path.drop_last()) == Some(
            BlockV {
                children: block_in(root, path.drop_last()).unwrap().children.remove(path.last() as int),
                ..block_in(root, path.drop_last()).unwrap()
            },
        ),
{
    let parent = block_in(root, path.drop_last()).unwrap();
    lemma_with_block_in(
        root,
        path.drop_last(),
        BlockV { children: parent.children.remove(path.last() as int), ..parent },
    );
}

/// Swapping in a node leaves it where it was put.
pub proof fn lemma_with_node_in(root: BlockV, path: Seq<usize>, node: NodeV)
    requires
        node_in(root, path) is Some,
    ensures
        node_in(with_node(root, path, node), path) == Some(node),
{
    let parent = block_in(root, path.drop_last()).unwrap();
    let sub = BlockV { children: parent.children.update(path.last() as int, node), ..parent };
    lemma_with_block_in(root, path.drop_last(), sub);
}

/// A second swap at the same path overrides the first.
pub proof fn lemma_with_node_twice(root: BlockV, path: Seq<usize>, a: NodeV, b: NodeV)
    requires
        node_in(root, path) is Some,
    ensures
        with_node(with_node(root, path, a), path, b) == with_node(root, path, b),
{
    let parent = block_in(root, path.drop_last()).unwrap();
    let i = path.last() as int;
    let sa = BlockV { children: parent.children.update(i, a), ..parent };
    let sb = BlockV { children: parent.children.update(i, b), ..parent };
    lemma_with_block_in(root, path.drop_last(), sa);
    lemma_with_node_in(root, path, a);
    assert(sa.children.update(i, b) =~= sb.children);
    lemma_with_block_twice(root, path.drop_last(), sa, sb);
}

/// Swapping a node for itself changes nothing.
pub proof fn lemma_with_node_same(root: BlockV, path: Seq<usize>)
    requires
        node_in(root, path) is Some,
    ensures
        with_node(root, path, node_in(root, path).unwrap()) == root,
{
    let parent = block_in(root, path.drop_last()).unwrap();
    let i = path.last() as int;
    assert(parent.children.update(i, parent.children[i]) =~= parent.children);
    assert(BlockV { children: parent.children.update(i, parent.children[i]), ..parent } == parent);
    lemma_with_block_same(root, path.drop_last());
}

/// Puts `node` in place of the node at `path`, and hands back the node
/// that was there. `None`, leaving the tree as it was, where `path`
/// names no node.
pub fn replace_node(root: &mut Block, path: &[usize], node: Node) -> (r: Option<Node>)
    ensures
        opt_node_view(r) == node_in(old(root)@, path@),
        final(root)@ == with_node(old(root)@, path@, node@),
{
    if path.len() == 0 {
        return None;
    }
    let (parent, last) = path.split_at(path.len() - 1);
    let index = last[0];
    assert(parent@ == path@.drop_last());
    let ghost before = root@;
    let ghost node_v = node@;
    let Some(mut block) = block_take(root, parent) else {
        return None;
    };
    let ghost empty = BlockV { combinator: Combinator::Chain, children: Seq::empty(), name: None };
    proof {
        lemma_with_block_in(before, parent@, empty);
    }
    if index >= block.children.len() {
        block_put(root, parent, block);
        proof {
            lemma_with_block_twice(before, parent@, empty, block@);
            lemma_with_block_same(before, parent@);
        }
        return None;
    }
    let ghost old_block = block;
    let prior = block.children.remove(index);
    block.children.insert(index, node);
    proof {
        assert(block.children@ =~= old_block.children@.update(index as int, node));
        lemma_nodes_view_ext(block.children@, old_block@.children.update(index as int, node_v));
        assert(block@ == BlockV { children: old_block@.children.update(index as int, node_v), ..old_block@ });
    }
    block_put(root, parent, block);
    proof {
        lemma_with_block_twice(before, parent@, empty, block@);
    }
    Some(prior)
}

/// Puts `node` in among the children of the block at `parent`, at
/// `index` or at the end if that is past it. Returns the index it
/// landed at; `None`, leaving the tree as it was, where `parent`
/// names no block.
pub fn insert_child(root: &mut Block, parent: &[usize], index: usize, node: Node) -> (r: Option<
    usize,
>)
    ensures
        r is Some <==> block_in(old(root)@, parent@) is Some,
        r matches Some(at) ==> at == if index <= block_in(old(root)@, parent@).unwrap().children.len() {
            index as int
        } else {
            block_in(old(root)@, parent@).unwrap().children.len() as int
        },
        r matches Some(at) ==> final(root)@ == insert_at(old(root)@, parent@, at as int, node@),
        r is None ==> final(root)@ == old(root)@,
{
    let ghost before = root@;
    let ghost node_v = node@;
    let Some(mut block) = block_take(root, parent) else {
        return None;
    };
    let ghost empty = BlockV { combinator: Combinator::Chain, children: Seq::empty(), name: None };
    proof {
        lemma_with_block_in(before, parent@, empty);
    }
    let ghost old_block = block;
    let at = if index <= block.children.len() {
        index
    } else {
        block.children.len()
    };
    block.children.insert(at, node);
    proof {
        lemma_nodes_view_ext(block.children@, old_block@.children.insert(at as int, node_v));
        assert(block@ == BlockV { children: old_block@.children.insert(at as int, node_v), ..old_block@ });
    }
    block_put(root, parent, block);
    proof {
        lemma_with_block_twice(before, parent@, empty, block@);
    }
    Some(at)
}

/// The block `path` names; `root` itself for an empty path.
pub fn block_at<'a>(root: &'a Block, path: &[usize]) -> (r: Option<&'a Block>)
    ensures
        match r {
            Some(b) => block_in(root@, path@) == Some(b@),
            None => block_in(root@, path@) is None,
        },
{
    let mut block = root;
    let mut k: usize = 0;
    assert(path@.skip(0) =~= path@);
    while k < path.len()
        invariant
            0 <= k <= path.len(),
            block_in(root@, path@) == block_in(block@, path@.skip(k as int)),
        decreases path.len() - k,
    {
        let index = path[k];
        assert(path@.skip(k as int).drop_first() =~= path@.skip(k + 1));
        if index >= block.children.len() {
            return None;
        }
        match &block.children[index] {
            Node::Block { block: inner, .. } => {
                block = inner;
            },
            _ => {
                return None;
            },
        }
        k = k + 1;
    }
    assert(path@.skip(k as int).len() == 0);
    Some(block)
}

/// The node `path` names; `None` for the empty path, which names the
/// root, and for a path that runs off the tree.
pub fn node_at<'a>(root: &'a Block, path: &[usize]) -> (r: Option<&'a Node>)
    ensures
        match r {
            Some(n) => node_in(root@, path@) == Some(n@),
            None => node_in(root@, path@) is None,
        },
{
    if path.len() == 0 {
        return None;
    }
    let (parent, last) = path.split_at(path.len() - 1);
    assert(parent@ == path@.drop_last());
    let index = last[0];
    let block = block_at(root, parent)?;
    if index < block.children.len() {
        Some(&block.children[index])
    } else {
        None
    }
}

/// Whether the first `len` entries of `a` and `b` match.
fn same_prefix(a: &[usize], b: &[usize], len: usize) -> (r: bool)
    requires
        len <= a.len(),
        len <= b.len(),
    ensures
        r == (a@.take(len as int) == b@.take(len as int)),
{
    let mut k: usize = 0;
    while k < len
        invariant
            k <= len,
            len <= a.len(),
            len <= b.len(),
            a@.take(k as int) == b@.take(k as int),
        decreases len - k,
    {
        if a[k] != b[k] {
            assert(a@.take(len as int)[k as int] != b@.take(len as int)[k as int]);
            return false;
        }
        assert(a@.take(k + 1) =~= a@.take(k as int).push(a@[k as int]));
        assert(b@.take(k + 1) =~= b@.take(k as int).push(b@[k as int]));
        k = k + 1;
    }
    true
}

/// Whether two paths are the same.
pub fn same_path(a: &[usize], b: &[usize]) -> (r: bool)
    ensures
        r == (a@ == b@),
{
    if a.len() != b.len() {
        return false;
    }
    let r = same_prefix(a, b, a.len());
    assert(a@.take(a@.len() as int) =~= a@);
    assert(b@.take(b@.len() as int) =~= b@);
    r
}

/// Whether `path` is `prefix` itself or sits under it.
pub fn under(path: &[usize], prefix: &[usize]) -> (r: bool)
    ensures
        r == is_under(path@, prefix@),
{
    assert(prefix@.take(prefix@.len() as int) =~= prefix@);
    path.len() >= prefix.len() && same_prefix(path, prefix, prefix.len())
}

/// Whether `path` names a direct child of `parent`.
pub fn is_child_of(path: &[usize], parent: &[usize]) -> (r: bool)
    ensures
        r == is_child_path(path@, parent@),
{
    assert(parent@.take(parent@.len() as int) =~= parent@);
    if parent.len() >= path.len() {
        return false;
    }
    path.len() - 1 == parent.len() && same_prefix(path, parent, parent.len())
}

/// `path` with its `depth`th entry set to `value`.
pub(crate) fn path_with(path: &[usize], depth: usize, value: usize) -> (r: Vec<usize>)
    requires
        depth < path.len(),
    ensures
        r@ == path@.update(depth as int, value),
{
    let mut out: Vec<usize> = Vec::new();
    let mut k: usize = 0;
    while k < path.len()
        invariant
            k <= path.len(),
            depth < path.len(),
            out@ == path@.update(depth as int, value).take(k as int),
        decreases path.len() - k,
    {
        if k == depth {
            out.push(value);
        } else {
            out.push(path[k]);
        }
        assert(path@.update(depth as int, value).take(k + 1) =~= path@.update(
            depth as int,
            value,
        ).take(k as int).push(path@.update(depth as int, value)[k as int]));
        k = k + 1;
    }
    assert(path@.update(depth as int, value).take(k as int) =~= path@.update(depth as int, value));
    out
}

/// Where `path` ends up once the node at `removed` is taken out -
/// `None` for a path inside that node, which goes with it.
pub fn after_removal(path: &[usize], removed: &[usize]) -> (r: Option<Vec<usize>>)
    ensures
        path_view(r) == path_after_removal(path@, removed@),
{
    if removed.len() == 0 {
        return None;
    }
    let depth = removed.len() - 1;
    let index = removed[depth];
    let (parent, _) = removed.split_at(depth);
    assert(parent@ == removed@.drop_last());
    assert(parent@.take(depth as int) =~= parent@);
    if path.len() <= depth || !same_prefix(path, parent, depth) {
        return Some(vstd::slice::slice_to_vec(path));
    }
    let at = path[depth];
    if at == index {
        return None;
    }
    if at > index {
        Some(path_with(path, depth, at - 1))
    } else {
        Some(vstd::slice::slice_to_vec(path))
    }
}

/// Reading down a path in two steps is reading down it in one.
pub proof fn lemma_block_in_concat(root: BlockV, a: Seq<usize>, b: Seq<usize>)
    ensures
        block_in(root, a + b) == match block_in(root, a) {
            Some(mid) => block_in(mid, b),
            None => None,
        },
    decreases a.len(),
{
    if a.len() > 0 {
        assert((a + b).drop_first() =~= a.drop_first() + b);
        assert((a + b)[0] == a[0]);
        match child_block(root, a[0] as int) {
            Some(inner) => lemma_block_in_concat(inner, a.drop_first(), b),
            None => {},
        }
    } else {
        assert(a + b =~= b);
    }
}

/// Swapping the block at `path` shows, from an ancestor `k` steps
/// down, as the same swap below that ancestor.
pub proof fn lemma_with_block_prefix(root: BlockV, path: Seq<usize>, sub: BlockV, k: int)
    requires
        block_in(root, path) is Some,
        0 <= k <= path.len(),
    ensures
        block_in(root, path.take(k)) is Some,
        block_in(with_block(root, path, sub), path.take(k)) == Some(
            with_block(block_in(root, path.take(k)).unwrap(), path.skip(k), sub),
        ),
    decreases k,
{
    if k == 0 {
        assert(path.take(0) =~= Seq::<usize>::empty());
        assert(path.skip(0) =~= path);
    } else {
        let i = path[0] as int;
        let inner = child_block(root, i).unwrap();
        let rest = path.drop_first();
        lemma_with_block_prefix(inner, rest, sub, k - 1);
        assert(path.take(k).drop_first() =~= rest.take(k - 1));
        assert(rest.skip(k - 1) =~= path.skip(k));
        assert(path.take(k)[0] == path[0]);
    }
}

/// Swapping the block at `path` leaves every block on a path that
/// turns off it before its end as it was.
pub proof fn lemma_with_block_apart(
    root: BlockV,
    path: Seq<usize>,
    sub: BlockV,
    other: Seq<usize>,
    k: int,
)
    requires
        block_in(root, path) is Some,
        0 <= k < path.len(),
        k < other.len(),
        other.take(k) == path.take(k),
        other[k] != path[k],
    ensures
        block_in(with_block(root, path, sub), other) == block_in(root, other),
    decreases k,
{
    let i = path[0] as int;
    let inner = child_block(root, i).unwrap();
    let new = with_block(root, path, sub);
    if k == 0 {
        assert(child_block(new, other[0] as int) == child_block(root, other[0] as int));
    } else {
        assert(other[0] == other.take(k)[0]);
        assert(other.take(k)[0] == path.take(k)[0]);
        assert(other.drop_first().take(k - 1) =~= other.take(k).drop_first());
        assert(path.drop_first().take(k - 1) =~= path.take(k).drop_first());
        lemma_with_block_apart(inner, path.drop_first(), sub, other.drop_first(), k - 1);
    }
}

/// Two sequences that differ somewhere in their first `m` entries
/// have a first place they differ.
proof fn lemma_first_difference(a: Seq<usize>, b: Seq<usize>, m: int) -> (k: int)
    requires
        0 <= m <= a.len(),
        m <= b.len(),
        a.take(m) != b.take(m),
    ensures
        0 <= k < m,
        a.take(k) == b.take(k),
        a[k] != b[k],
    decreases m,
{
    assert(m > 0) by {
        if m == 0 {
            assert(a.take(0) =~= b.take(0));
        }
    }
    if a.take(m - 1) != b.take(m - 1) {
        lemma_first_difference(a, b, m - 1)
    } else {
        assert(a.take(m) =~= a.take(m - 1).push(a[m - 1]));
        assert(b.take(m) =~= b.take(m - 1).push(b[m - 1]));
        m - 1
    }
}

/// The node a path names, read one step down from the block it
/// starts in.
pub proof fn lemma_node_in_first(block: BlockV, path: Seq<usize>)
    requires
        path.len() >= 1,
    ensures
        node_in(block, path) == if path.len() == 1 {
            if path[0] < block.children.len() {
                Some(block.children[path[0] as int])
            } else {
                None
            }
        } else {
            match child_block(block, path[0] as int) {
                Some(inner) => node_in(inner, path.drop_first()),
                None => None,
            }
        },
{
    if path.len() > 1 {
        let first = seq![path[0]];
        assert(path.drop_last() =~= first + path.drop_first().drop_last());
        lemma_block_in_concat(block, first, path.drop_first().drop_last());
        assert(first.drop_first() =~= Seq::<usize>::empty());
        match child_block(block, path[0] as int) {
            Some(inner) => {
                assert(block_in(inner, first.drop_first()) == Some(inner));
            },
            None => {},
        }
        assert(block_in(block, first) == child_block(block, path[0] as int));
        assert(path.drop_first().last() == path.last());
    } else {
        assert(path.drop_last() =~= Seq::<usize>::empty());
    }
}

/// The node a path names, read from the block at one of its
/// prefixes.
proof fn lemma_node_below(root: BlockV, parent: Seq<usize>, path: Seq<usize>)
    requires
        path.len() > parent.len(),
        path.take(parent.len() as int) == parent,
        block_in(root, parent) is Some,
    ensures
        node_in(root, path) == node_in(block_in(root, parent).unwrap(), path.skip(parent.len() as int)),
{
    let d = parent.len() as int;
    let tail = path.skip(d);
    assert(path.drop_last() =~= parent + tail.drop_last());
    lemma_block_in_concat(root, parent, tail.drop_last());
    assert(tail.last() == path.last());
}

/// Taking a node out leaves every other node where
/// [`path_after_removal`] says, and takes with it exactly the nodes
/// under it. An ancestor of the removed node is left out: it stays
/// put, but loses a descendant.
pub proof fn lemma_path_after_removal(root: BlockV, removed: Seq<usize>, path: Seq<usize>)
    requires
        node_in(root, removed) is Some,
        node_in(root, path) is Some,
        !(path.len() < removed.len() && removed.take(path.len() as int) == path),
    ensures
        path_after_removal(path, removed) is None <==> is_under(path, removed),
        path_after_removal(path, removed) matches Some(moved) ==> node_in(
            remove_at(root, removed),
            moved,
        ) == node_in(root, path),
{
    let parent = removed.drop_last();
    let index = removed.last();
    let d = parent.len() as int;
    let b = block_in(root, parent).unwrap();
    let nb = BlockV { children: b.children.remove(index as int), ..b };
    let new = with_block(root, parent, nb);
    assert(remove_at(root, removed) == new);
    lemma_with_block_in(root, parent, nb);
    if path.len() <= parent.len() || path.take(d) != parent {
        let m = if path.len() <= d { path.len() as int } else { d };
        assert(path.take(m) != parent.take(m)) by {
            if path.len() <= d {
                assert(path.take(m) =~= path);
                assert(removed.take(m) =~= parent.take(m));
            } else {
                assert(parent.take(m) =~= parent);
            }
        }
        let k = lemma_first_difference(path, parent, m);
        assert(!is_under(path, removed)) by {
            if is_under(path, removed) {
                assert(path.take(d)[k] == path[k]);
                assert(removed.take(d + 1)[k] == parent[k]);
                assert(path.take(removed.len() as int)[k] == path[k]);
            }
        }
        let up = path.drop_last();
        if k < path.len() - 1 {
            assert(up.take(k) =~= path.take(k));
            lemma_with_block_apart(root, parent, nb, up, k);
        } else {
            assert(up =~= parent.take(k));
            lemma_with_block_prefix(root, parent, nb, k);
            let bk = block_in(root, parent.take(k)).unwrap();
            assert(parent.skip(k)[0] == parent[k]);
            assert(parent.skip(k).len() > 0);
            let changed = with_block(bk, parent.skip(k), nb);
            assert(changed.children.len() == bk.children.len());
            assert(path.last() == path[k]);
            if path[k] < bk.children.len() {
                assert(changed.children[path[k] as int] == bk.children[path[k] as int]);
            }
        }
    } else {
        let j = path[d];
        let tail = path.skip(d);
        assert(tail[0] == j);
        lemma_node_below(root, parent, path);
        lemma_node_in_first(b, tail);
        if j == index {
            assert(path.take(d + 1) =~= removed);
        } else {
            assert(!is_under(path, removed)) by {
                if is_under(path, removed) {
                    assert(path.take(d + 1)[d] == removed[d]);
                }
            }
            let moved = if j > index {
                path.update(d, (j - 1) as usize)
            } else {
                path
            };
            let jn = moved[d];
            assert(moved.take(d) =~= parent);
            lemma_node_below(new, parent, moved);
            let mtail = moved.skip(d);
            assert(mtail[0] == jn);
            assert(mtail.drop_first() =~= tail.drop_first());
            lemma_node_in_first(nb, mtail);
            assert(j < b.children.len()) by {
                if path.len() == d + 1 {
                } else {
                }
            }
            assert(nb.children[jn as int] == b.children[j as int]);
        }
    }
}

} // verus!
