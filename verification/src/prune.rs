//! Cleanup after a node leaves the tree: empty blocks and unused
//! stage entries.

use vstd::prelude::*;

use crate::scene::{
    Block, BlockV, FieldRef, FieldSeed, FieldSeedV, Node, NodeV, Scene, Subject, SubjectV,
    seeds_view, subjects_view, lemma_block_view, lemma_nodes_view, lemma_nodes_view_ext, node_view,
    nodes_view,
};
use crate::tree::{path_view, path_with};

verus! {

broadcast use {lemma_nodes_view, lemma_block_view};

/// What is left of a run of nodes once every block that holds no
/// leaf, at any depth, is dropped, and every block kept is pruned the
/// same way.
pub open spec fn pruned_children(nodes: Seq<NodeV>) -> Seq<NodeV>
    decreases nodes,
{
    if nodes.len() == 0 {
        Seq::empty()
    } else {
        let rest = pruned_children(nodes.drop_last());
        match nodes.last() {
            NodeV::Block { delay, block } => if prunes_away(block) {
                rest
            } else {
                rest.push(NodeV::Block { delay, block: pruned_block(block) })
            },
            other => rest.push(other),
        }
    }
}

/// `block` with every block under it that holds no leaf dropped.
pub open spec fn pruned_block(block: BlockV) -> BlockV
    decreases block,
{
    BlockV { children: pruned_children(block.children), ..block }
}

/// Whether pruning leaves `block` with nothing in it.
pub open spec fn prunes_away(block: BlockV) -> bool
    decreases block,
{
    pruned_children(block.children).len() == 0
}

/// `node` as pruning leaves it, if it is kept at all.
pub open spec fn pruned_node(node: NodeV) -> NodeV {
    match node {
        NodeV::Block { delay, block } => NodeV::Block { delay, block: pruned_block(block) },
        other => other,
    }
}

/// Where `path` ends up once `block` is pruned: `None` where it runs
/// through (or ends at) a block that is dropped. Past the end of a
/// block's children it moves down by however many of them were
/// dropped, and below it is left as it was.
pub open spec fn kept_path(block: BlockV, path: Seq<usize>) -> Option<Seq<usize>>
    decreases path.len(),
{
    if path.len() == 0 {
        Some(path)
    } else {
        let i = path[0] as int;
        let n = block.children.len() as int;
        let m = if i < n {
            i
        } else {
            n
        };
        let moved = (pruned_children(block.children.take(m)).len() + (i - m)) as usize;
        if i < n {
            match block.children[i] {
                NodeV::Block { block: inner, .. } => if prunes_away(inner) {
                    None
                } else {
                    match kept_path(inner, path.drop_first()) {
                        Some(sub) => Some(seq![moved] + sub),
                        None => None,
                    }
                },
                _ => Some(seq![moved] + path.drop_first()),
            }
        } else {
            Some(seq![moved] + path.drop_first())
        }
    }
}

/// Pruning never lengthens a run of nodes, and a longer prefix keeps
/// at least as much.
proof fn lemma_pruned_len(nodes: Seq<NodeV>, a: int, b: int)
    requires
        0 <= a <= b <= nodes.len(),
    ensures
        pruned_children(nodes.take(a)).len() <= pruned_children(nodes.take(b)).len(),
        pruned_children(nodes.take(b)).len() <= pruned_children(nodes.take(a)).len() + (b - a),
    decreases b - a,
{
    if a < b {
        lemma_pruned_len(nodes, a, b - 1);
        assert(nodes.take(b).drop_last() =~= nodes.take(b - 1));
    }
}

/// The first entry of `keep`, if it has one.
fn first_of(keep: &Option<Vec<usize>>) -> (r: Option<usize>)
    ensures
        r == match path_view(*keep) {
            Some(p) => if p.len() > 0 {
                Some(p[0])
            } else {
                None
            },
            None => None,
        },
{
    match keep {
        Some(p) => if p.len() > 0 {
            Some(p[0])
        } else {
            None
        },
        None => None,
    }
}

/// Everything of `path` past its first entry.
fn rest_of(path: &Vec<usize>) -> (r: Vec<usize>)
    requires
        path.len() > 0,
    ensures
        r@ == path@.drop_first(),
{
    let mut out: Vec<usize> = Vec::new();
    let mut k: usize = 1;
    while k < path.len()
        invariant
            1 <= k <= path.len(),
            out@ == path@.subrange(1, k as int),
        decreases path.len() - k,
    {
        out.push(path[k]);
        assert(path@.subrange(1, k + 1) =~= path@.subrange(1, k as int).push(path@[k as int]));
        k = k + 1;
    }
    out
}

/// `first` followed by `rest`.
fn prepend(first: usize, rest: Vec<usize>) -> (r: Vec<usize>)
    ensures
        r@ == seq![first] + rest@,
{
    let mut out: Vec<usize> = Vec::new();
    out.push(first);
    let mut k: usize = 0;
    while k < rest.len()
        invariant
            k <= rest.len(),
            out@ == seq![first] + rest@.take(k as int),
        decreases rest.len() - k,
    {
        out.push(rest[k]);
        assert(rest@.take(k + 1) =~= rest@.take(k as int).push(rest@[k as int]));
        k = k + 1;
    }
    assert(rest@.take(k as int) =~= rest@);
    out
}

/// Drops every empty block, innermost first so one emptied by losing
/// its last nested block goes too. The root stays, empty or not.
/// `keep` is a path to carry through the renumbering, cleared if it
/// pointed inside a pruned block.
pub fn empty_blocks(block: &mut Block, keep: &mut Option<Vec<usize>>)
    ensures
        final(block)@ == pruned_block(old(block)@),
        path_view(*final(keep)) == match path_view(*old(keep)) {
            Some(k) => kept_path(old(block)@, k),
            None => None,
        },
    decreases old(block)@,
{
    let ghost start = *block;
    let ghost ob = block@;
    let ghost k0 = path_view(*keep);
    let mut i: usize = 0;
    let ghost mut j: int = 0;
    proof {
        assert(ob.children.take(0) =~= Seq::<NodeV>::empty());
        assert(block.children@.take(0) =~= Seq::<Node>::empty());
        assert(block.children@.skip(0) =~= start.children@);
    }
    while i < block.children.len()
        invariant
            0 <= j <= start.children@.len(),
            ob == start@,
            ob == old(block)@,
            block.combinator == start.combinator,
            block.name == start.name,
            i <= block.children@.len(),
            i == pruned_children(ob.children.take(j)).len(),
            nodes_view(block.children@.take(i as int)) == pruned_children(ob.children.take(j)),
            block.children@.skip(i as int) == start.children@.skip(j),
            k0 is None ==> path_view(*keep) is None,
            k0 is Some && k0.unwrap().len() == 0 ==> path_view(*keep) == k0,
            k0 is Some && k0.unwrap().len() > 0 && k0.unwrap()[0] >= j ==> path_view(*keep) == Some(
                seq![(i + (k0.unwrap()[0] - j)) as usize] + k0.unwrap().drop_first(),
            ),
            k0 is Some && k0.unwrap().len() > 0 && k0.unwrap()[0] < j ==> path_view(*keep)
                == kept_path(ob, k0.unwrap()),
            k0 is Some && k0.unwrap().len() > 0 && k0.unwrap()[0] < j && path_view(*keep) is Some
                ==> path_view(*keep).unwrap().len() > 0 && path_view(*keep).unwrap()[0] < i,
        decreases block.children@.len() - i,
    {
        let ghost before = block.children@;
        assert(before.skip(i as int).len() > 0);
        assert(j < start.children@.len());
        assert(before.skip(i as int)[0] == before[i as int]);
        assert(start.children@.skip(j)[0] == start.children@[j]);
        assert(before[i as int] == start.children@[j]);
        let ghost child_v = ob.children[j];
        assert(child_v == node_view(start.children@[j]));
        assert(ob.children.take(j + 1).drop_last() =~= ob.children.take(j));
        assert(ob.children.take(j + 1).last() == child_v);
        assert(start.children@.skip(j + 1) =~= start.children@.skip(j).drop_first());
        let is_block = match &block.children[i] {
            Node::Block { .. } => true,
            _ => false,
        };
        if !is_block {
            proof {
                assert(before.take(i + 1).drop_last() =~= before.take(i as int));
                assert(before.skip(i + 1) =~= before.skip(i as int).drop_first());
                if let Some(k) = k0 {
                    if k.len() > 0 && k[0] == j {
                        assert(ob.children.take(k[0] as int) == ob.children.take(j));
                    }
                }
                j = j + 1;
            }
            i = i + 1;
            continue;
        }
        let target = match first_of(keep) {
            Some(first) => first == i,
            None => false,
        };
        proof {
            lemma_pruned_len(ob.children, 0, j);
            assert(ob.children.take(0) =~= Seq::<NodeV>::empty());
            if let Some(k) = k0 {
                if k.len() > 0 && k[0] > j {
                    assert(!target);
                }
                if k.len() > 0 && k[0] == j {
                    assert(target);
                }
            }
        }
        let mut inner_keep: Option<Vec<usize>> = if target {
            match keep {
                Some(p) => Some(rest_of(p)),
                None => None,
            }
        } else {
            None
        };
        let child = block.children.remove(i);
        let ghost child_before = child;
        let ghost inner_v = match child_before {
            Node::Block { block: inner, .. } => inner@,
            _ => ob,
        };
        assert(child_v == NodeV::Block { delay: crate::scene::delay_of(child_v), block: inner_v });
        let child = match child {
            Node::Block { delay, block: mut inner } => {
                proof {
                    assert(ob.children[j] == NodeV::Block { delay, block: inner@ });
                    assert(decreases_to!(ob => ob.children));
                    assert(decreases_to!(ob.children => ob.children[j]));
                    assert(decreases_to!(ob => inner@));
                }
                empty_blocks(&mut inner, &mut inner_keep);
                Node::Block { delay, block: inner }
            },
            other => other,
        };
        let ghost child_after = child;
        if target {
            *keep = match inner_keep {
                Some(rest) => Some(prepend(i, rest)),
                None => None,
            };
        }
        proof {
            if let Some(k) = k0 {
                if k.len() > 0 && k[0] == j {
                    assert((seq![i] + k.drop_first()).drop_first() =~= k.drop_first());
                    assert(ob.children.take(k[0] as int) == ob.children.take(j));
                    assert(path_view(inner_keep) == kept_path(inner_v, k.drop_first()));
                }
            }
        }
        let emptied = match &child {
            Node::Block { block: inner, .. } => inner.children.len() == 0,
            _ => false,
        };
        let ghost after_remove = block.children@;
        proof {
            assert(after_remove.take(i as int) =~= before.take(i as int));
            assert(after_remove.skip(i as int) =~= before.skip(i + 1));
            assert(before.skip(i + 1) =~= before.skip(i as int).drop_first());
        }
        if emptied {
            assert(prunes_away(inner_v));
            match first_of(keep) {
                Some(first) => {
                    if first == i {
                        *keep = None;
                    } else if first > i {
                        let p = keep.as_ref().unwrap();
                        let moved = path_with(p, 0, first - 1);
                        proof {
                            if let Some(k) = k0 {
                                if k.len() > 0 && k[0] > j {
                                    assert(moved@ =~= seq![(i + (k[0] - (j + 1))) as usize]
                                        + k.drop_first());
                                }
                            }
                        }
                        *keep = Some(moved);
                    }
                },
                None => {},
            }
        } else {
            assert(!prunes_away(inner_v));
            block.children.insert(i, child);
            proof {
                let now = block.children@;
                assert(now.take(i + 1) =~= before.take(i as int).push(child_after));
                assert(now.take(i + 1).drop_last() =~= before.take(i as int));
                assert(now.skip(i + 1) =~= after_remove.skip(i as int));
                assert(node_view(child_after) == NodeV::Block {
                    delay: crate::scene::delay_of(child_v),
                    block: pruned_block(inner_v),
                });
            }
            i = i + 1;
        }
        proof {
            j = j + 1;
        }
    }
    proof {
        assert(start.children@.skip(j).len() == 0);
        assert(ob.children.take(j) =~= ob.children);
        assert(block.children@.take(i as int) =~= block.children@);
        lemma_nodes_view_ext(block.children@, pruned_children(ob.children));
        if let Some(k) = k0 {
            if k.len() > 0 && k[0] >= j {
                assert(ob.children.take(ob.children.len() as int) =~= ob.children);
            }
        }
    }
}

/// Whether some block on `path`, its end included, is one pruning
/// drops.
pub open spec fn dropped_on(block: BlockV, path: Seq<usize>) -> bool
    decreases path.len(),
{
    if path.len() == 0 || path[0] >= block.children.len() {
        false
    } else {
        match block.children[path[0] as int] {
            NodeV::Block { block: inner, .. } => prunes_away(inner) || dropped_on(
                inner,
                path.drop_first(),
            ),
            _ => false,
        }
    }
}

/// What pruning keeps of a shorter prefix of a run of nodes begins
/// what it keeps of a longer one.
proof fn lemma_pruned_prefix(nodes: Seq<NodeV>, a: int, b: int)
    requires
        0 <= a <= b <= nodes.len(),
    ensures
        pruned_children(nodes.take(a)).len() <= pruned_children(nodes.take(b)).len(),
        forall|t: int|
            0 <= t < pruned_children(nodes.take(a)).len() ==> #[trigger] pruned_children(
                nodes.take(b),
            )[t] == pruned_children(nodes.take(a))[t],
    decreases b - a,
{
    if a < b {
        lemma_pruned_prefix(nodes, a, b - 1);
        assert(nodes.take(b).drop_last() =~= nodes.take(b - 1));
    }
}

/// Where pruning puts the `i`th child of a block it keeps.
proof fn lemma_kept_child(block: BlockV, i: int)
    requires
        0 <= i < block.children.len(),
        !node_prunes_away(block.children[i]),
    ensures
        pruned_children(block.children.take(i)).len() <= i,
        pruned_children(block.children.take(i)).len() < pruned_block(block).children.len(),
        pruned_block(block).children[pruned_children(block.children.take(i)).len() as int]
            == pruned_node(block.children[i]),
{
    let n = block.children.len() as int;
    lemma_pruned_len(block.children, 0, i);
    assert(block.children.take(0) =~= Seq::<NodeV>::empty());
    lemma_pruned_prefix(block.children, i + 1, n);
    assert(block.children.take(n) =~= block.children);
    assert(block.children.take(i + 1).drop_last() =~= block.children.take(i));
    assert(block.children.take(i + 1).last() == block.children[i]);
}

/// Whether pruning drops `node`.
pub open spec fn node_prunes_away(node: NodeV) -> bool {
    match node {
        NodeV::Block { block, .. } => prunes_away(block),
        _ => false,
    }
}

/// Pruning leaves a kept path naming the node it named before, itself
/// pruned, and drops the path exactly where it runs through (or ends
/// at) a block pruning drops.
#[verifier::rlimit(30)]
pub proof fn lemma_kept_path(block: BlockV, path: Seq<usize>)
    requires
        crate::tree::node_in(block, path) is Some,
    ensures
        kept_path(block, path) is None <==> dropped_on(block, path),
        kept_path(block, path) matches Some(moved) ==> crate::tree::node_in(
            pruned_block(block),
            moved,
        ) == Some(pruned_node(crate::tree::node_in(block, path).unwrap())),
    decreases path.len(),
{
    let i = path[0] as int;
    let rest = path.drop_first();
    crate::tree::lemma_node_in_first(block, path);
    let n = block.children.len() as int;
    assert(i < n) by {
        if i >= n {
            if path.len() > 1 {
                assert(crate::tree::child_block(block, i) is None);
            }
        }
    }
    let child = block.children[i];
    let pb = pruned_block(block);
    if node_prunes_away(child) {
        return;
    }
    lemma_kept_child(block, i);
    let moved = pruned_children(block.children.take(i)).len();
    let mu = moved as usize;
    assert(mu as int == moved);
    assert(pb.children[moved as int] == pruned_node(child));
    if rest.len() == 0 {
        let p = seq![mu] + rest;
        assert(p =~= seq![mu]);
        if let NodeV::Block { block: inner, .. } = child {
            assert(kept_path(inner, rest) == Some(rest));
            assert(!dropped_on(inner, rest));
        }
        assert(kept_path(block, path) == Some(p));
        crate::tree::lemma_node_in_first(pb, p);
    } else {
        match child {
            NodeV::Block { delay, block: inner } => {
                lemma_kept_path(inner, rest);
                assert(crate::tree::child_block(pb, moved as int) == Some(pruned_block(inner)));
                if let Some(sub) = kept_path(inner, rest) {
                    let p = seq![mu] + sub;
                    assert(kept_path(block, path) == Some(p));
                    assert(p.drop_first() =~= sub);
                    assert(p[0] == mu);
                    crate::tree::lemma_node_in_first(pb, p);
                }
            },
            _ => {},
        }
    }
}

/// Every (subject, field) an action under `nodes` drives, at any
/// depth.
pub open spec fn used_in(nodes: Seq<NodeV>) -> Set<(u128, (Seq<char>, Seq<char>))>
    decreases nodes,
{
    if nodes.len() == 0 {
        Set::empty()
    } else {
        used_in(nodes.drop_last()).union(
            match nodes.last() {
                NodeV::Block { block, .. } => used_in(block.children),
                NodeV::Action { action, .. } => set![(action.subject, action.field)],
                NodeV::Draft { .. } => Set::empty(),
            },
        )
    }
}

/// Every (subject, field) an action in `block` drives.
pub open spec fn used_fields(block: BlockV) -> Set<(u128, (Seq<char>, Seq<char>))> {
    used_in(block.children)
}

/// Pruning leaves no block to prune: pruning a pruned run of nodes
/// changes nothing.
pub proof fn lemma_pruning_settles(nodes: Seq<NodeV>)
    ensures
        pruned_children(pruned_children(nodes)) == pruned_children(nodes),
    decreases nodes,
{
    if nodes.len() > 0 {
        let rest = nodes.drop_last();
        lemma_pruning_settles(rest);
        let pr = pruned_children(rest);
        match nodes.last() {
            NodeV::Block { delay, block } => {
                assert(decreases_to!(nodes => nodes.last()));
                lemma_pruning_settles(block.children);
                if !prunes_away(block) {
                    let inner = pruned_block(block);
                    let kept = NodeV::Block { delay, block: inner };
                    assert(pr.push(kept).drop_last() =~= pr);
                    assert(pr.push(kept).last() == kept);
                    assert(!prunes_away(inner));
                    assert(pruned_block(inner) == inner);
                }
            },
            other => {
                assert(pr.push(other).drop_last() =~= pr);
                assert(pr.push(other).last() == other);
            },
        }
    }
}

/// Pruning drops only blocks with no leaf under them, so every field
/// an action drove is still driven after it: pruning a tree never
/// changes what its stage keeps.
pub proof fn lemma_pruning_keeps_used(nodes: Seq<NodeV>)
    ensures
        used_in(pruned_children(nodes)) == used_in(nodes),
    decreases nodes,
{
    if nodes.len() > 0 {
        let rest = nodes.drop_last();
        lemma_pruning_keeps_used(rest);
        let pr = pruned_children(rest);
        match nodes.last() {
            NodeV::Block { delay, block } => {
                assert(decreases_to!(nodes => nodes.last()));
                lemma_pruning_keeps_used(block.children);
                if prunes_away(block) {
                    assert(pruned_children(block.children) =~= Seq::<NodeV>::empty());
                    assert(used_in(block.children) =~= Set::empty());
                    assert(used_in(nodes) =~= used_in(rest));
                } else {
                    let kept = NodeV::Block { delay, block: pruned_block(block) };
                    assert(pr.push(kept).drop_last() =~= pr);
                    assert(used_in(pr.push(kept)) =~= used_in(nodes));
                }
            },
            other => {
                assert(pr.push(other).drop_last() =~= pr);
                assert(used_in(pr.push(other)) =~= used_in(nodes));
            },
        }
    }
}

/// The (subject, field) pairs a list holds.
pub open spec fn keys_of(list: Seq<(u128, FieldRef)>) -> Set<(u128, (Seq<char>, Seq<char>))> {
    Set::new(|key: (u128, (Seq<char>, Seq<char>))| exists|i: int| 0 <= i < list.len() && (#[trigger] list[i].0, list[i].1@) == key)
}

proof fn lemma_keys_push(list: Seq<(u128, FieldRef)>, entry: (u128, FieldRef))
    ensures
        keys_of(list.push(entry)) == keys_of(list).insert((entry.0, entry.1@)),
{
    let longer = list.push(entry);
    assert forall|key| keys_of(longer).contains(key) implies keys_of(list).insert(
        (entry.0, entry.1@),
    ).contains(key) by {
        let i = choose|i: int| 0 <= i < longer.len() && (#[trigger] longer[i].0, longer[i].1@) == key;
        if i < list.len() {
            assert(list[i] == longer[i]);
        }
    }
    assert forall|key| keys_of(list).insert((entry.0, entry.1@)).contains(key) implies keys_of(
        longer,
    ).contains(key) by {
        if key == (entry.0, entry.1@) {
            assert(longer[list.len() as int] == entry);
        } else {
            let i = choose|i: int| 0 <= i < list.len() && (#[trigger] list[i].0, list[i].1@) == key;
            assert(longer[i] == list[i]);
        }
    }
    assert(keys_of(longer) =~= keys_of(list).insert((entry.0, entry.1@)));
}

/// Adds to `used` every (subject, field) an action in `block` drives.
pub fn collect_used_fields(block: &Block, used: &mut Vec<(u128, FieldRef)>)
    ensures
        keys_of(final(used)@) == keys_of(old(used)@).union(used_fields(block@)),
    decreases block@,
{
    let ghost start = used@;
    let mut k: usize = 0;
    assert(block@.children.take(0) =~= Seq::<NodeV>::empty());
    assert(keys_of(used@) =~= keys_of(start).union(Set::empty()));
    while k < block.children.len()
        invariant
            k <= block.children@.len(),
            keys_of(used@) == keys_of(start).union(used_in(block@.children.take(k as int))),
        decreases block.children@.len() - k,
    {
        let ghost bv = block@;
        assert(bv.children.take(k + 1).drop_last() =~= bv.children.take(k as int));
        assert(bv.children.take(k + 1).last() == bv.children[k as int]);
        match &block.children[k] {
            Node::Block { block: inner, .. } => {
                assert(decreases_to!(bv => bv.children[k as int]));
                collect_used_fields(inner, used);
                assert(keys_of(used@) =~= keys_of(start).union(used_in(bv.children.take(k + 1))));
            },
            Node::Action { action, .. } => {
                let ghost before = used@;
                let entry = (action.subject, action.field.copy());
                used.push(entry);
                proof {
                    lemma_keys_push(before, entry);
                }
                assert(keys_of(used@) =~= keys_of(start).union(used_in(bv.children.take(k + 1))));
            },
            Node::Draft { .. } => {
                assert(keys_of(used@) =~= keys_of(start).union(used_in(bv.children.take(k + 1))));
            },
        }
        k = k + 1;
    }
    assert(block@.children.take(k as int) =~= block@.children);
}

/// Whether `used` holds `subject` with `field`.
fn holds_key(used: &Vec<(u128, FieldRef)>, subject: u128, field: &FieldRef) -> (r: bool)
    ensures
        r == keys_of(used@).contains((subject, field@)),
{
    let mut k: usize = 0;
    while k < used.len()
        invariant
            k <= used@.len(),
            forall|t: int| 0 <= t < k ==> (#[trigger] used@[t].0, used@[t].1@) != (subject, field@),
        decreases used@.len() - k,
    {
        if used[k].0 == subject && used[k].1.same(field) {
            assert(keys_of(used@).contains((subject, field@)));
            return true;
        }
        k = k + 1;
    }
    false
}

/// The seeds of subject `id` that an action still drives.
pub open spec fn kept_seeds(
    id: u128,
    fields: Seq<FieldSeedV>,
    used: Set<(u128, (Seq<char>, Seq<char>))>,
) -> Seq<FieldSeedV>
    decreases fields.len(),
{
    if fields.len() == 0 {
        Seq::empty()
    } else {
        let rest = kept_seeds(id, fields.drop_last(), used);
        if used.contains((id, fields.last().field)) {
            rest.push(fields.last())
        } else {
            rest
        }
    }
}

/// The stage once every seed no action drives is dropped, and every
/// subject left with none after that.
pub open spec fn staged_subjects(
    subjects: Seq<SubjectV>,
    used: Set<(u128, (Seq<char>, Seq<char>))>,
) -> Seq<SubjectV>
    decreases subjects.len(),
{
    if subjects.len() == 0 {
        Seq::empty()
    } else {
        let rest = staged_subjects(subjects.drop_last(), used);
        let last = subjects.last();
        let fields = kept_seeds(last.id, last.fields, used);
        if fields.len() > 0 {
            rest.push(SubjectV { id: last.id, fields })
        } else {
            rest
        }
    }
}

/// The seeds of subject `id` whose field `used` holds, in order.
fn retain_seeds(id: u128, fields: Vec<FieldSeed>, used: &Vec<(u128, FieldRef)>) -> (r: Vec<FieldSeed>)
    ensures
        seeds_view(r@) == kept_seeds(
            id,
            seeds_view(fields@),
            keys_of(used@),
        ),
{
    let ghost all = seeds_view(fields@);
    let mut rest = fields;
    let mut out: Vec<FieldSeed> = Vec::new();
    let ghost mut k: int = 0;
    assert(all.take(0) =~= Seq::<FieldSeedV>::empty());
    assert(seeds_view(out@) =~= Seq::<FieldSeedV>::empty());
    while rest.len() > 0
        invariant
            0 <= k <= all.len(),
            seeds_view(rest@) == all.skip(k),
            seeds_view(out@) == kept_seeds(id, all.take(k), keys_of(used@)),
        decreases rest.len(),
    {
        let ghost before = rest@;
        assert(seeds_view(before).len() == before.len());
        assert(k < all.len());
        let seed = rest.remove(0);
        proof {
            assert(all.skip(k)[0] == seed@) by {
                assert(seeds_view(before)[0] == before[0]@);
            }
            assert forall|t: int| 0 <= t < rest@.len() implies #[trigger] seeds_view(rest@)[t] == all.skip(k + 1)[t] by {
                assert(rest@[t] == before[t + 1]);
                assert(seeds_view(before)[t + 1] == all.skip(k)[t + 1]);
            }
            assert(seeds_view(rest@) =~= all.skip(k + 1));
            assert(all.take(k + 1).drop_last() =~= all.take(k));
            assert(all.take(k + 1).last() == all[k]);
            assert(all[k] == all.skip(k)[0]);
        }
        let ghost out_before = out@;
        if holds_key(used, id, &seed.field) {
            out.push(seed);
            assert(seeds_view(out@) =~= seeds_view(out_before).push(all[k]));
        }
        proof {
            k = k + 1;
        }
    }
    assert(all.take(k) =~= all);
    out
}

/// Drops any stage entry no surviving action still animates, and any
/// subject left with none.
pub fn stage(scene: &mut Scene)
    ensures
        final(scene).animation == old(scene).animation,
        subjects_view(final(scene).stage.subjects@) == staged_subjects(
            subjects_view(old(scene).stage.subjects@),
            used_fields(old(scene).animation@),
        ),
{
    let mut used: Vec<(u128, FieldRef)> = Vec::new();
    collect_used_fields(&scene.animation, &mut used);
    assert(keys_of(used@) =~= used_fields(scene.animation@)) by {
        assert(keys_of(Seq::<(u128, FieldRef)>::empty()) =~= Set::empty());
    }
    let mut rest: Vec<Subject> = Vec::new();
    core::mem::swap(&mut rest, &mut scene.stage.subjects);
    let ghost all = subjects_view(rest@);
    let mut out: Vec<Subject> = Vec::new();
    let ghost mut k: int = 0;
    assert(all.take(0) =~= Seq::<SubjectV>::empty());
    assert(subjects_view(out@) =~= Seq::<SubjectV>::empty());
    while rest.len() > 0
        invariant
            0 <= k <= all.len(),
            subjects_view(rest@) == all.skip(k),
            subjects_view(out@) == staged_subjects(all.take(k), keys_of(used@)),
        decreases rest.len(),
    {
        let ghost before = rest@;
        assert(subjects_view(before).len() == before.len());
        assert(k < all.len());
        let subject = rest.remove(0);
        proof {
            assert(subjects_view(before)[0] == subject@);
            assert forall|t: int| 0 <= t < rest@.len() implies #[trigger] subjects_view(rest@)[t]
                == all.skip(k + 1)[t] by {
                assert(rest@[t] == before[t + 1]);
                assert(subjects_view(before)[t + 1] == all.skip(k)[t + 1]);
            }
            assert(subjects_view(rest@) =~= all.skip(k + 1));
            assert(all.take(k + 1).drop_last() =~= all.take(k));
            assert(all.take(k + 1).last() == all[k]);
            assert(all[k] == all.skip(k)[0]);
        }
        let id = subject.id;
        let fields = retain_seeds(id, subject.fields, &used);
        let ghost out_before = out@;
        if fields.len() > 0 {
            out.push(Subject { id, fields });
            assert(subjects_view(out@) =~= subjects_view(out_before).push(
                SubjectV { id, fields: kept_seeds(id, all[k].fields, keys_of(used@)) },
            ));
        }
        proof {
            k = k + 1;
        }
    }
    assert(all.take(k) =~= all);
    scene.stage.subjects = out;
}

} // verus!
