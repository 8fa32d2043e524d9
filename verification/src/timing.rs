//! How long nodes and blocks run, and when each child of a block
//! starts: the timing math the animation is compiled with, which the
//! timeline draws from.

use vstd::prelude::*;

use crate::scene::{Block, BlockV, Combinator, Node, NodeV, lemma_block_view, lemma_nodes_view};
use crate::span::{Span, sat_add, sat_mul};

verus! {

broadcast use {lemma_nodes_view, lemma_block_view};

/// An optional delay's length; none is no time.
pub open spec fn delay_len(delay: Option<Span>) -> nat {
    match delay {
        Some(d) => d@,
        None => 0,
    }
}

/// How long a node advances its block's chain or flow: its own
/// running time plus its delay, held at the longest span.
pub open spec fn node_time(node: NodeV) -> nat
    decreases node,
{
    match node {
        NodeV::Action { delay, action } => sat_add(action.duration@, delay_len(delay)),
        NodeV::Block { delay, block } => sat_add(block_time(block), delay_len(delay)),
        NodeV::Draft { delay, duration, .. } => sat_add(duration@, delay_len(delay)),
    }
}

/// How long a block runs under its combinator: a chain the sum of
/// its children, an overlap the longest of them, a flow the latest
/// any of them ends, each starting its stagger after the one before.
pub open spec fn block_time(block: BlockV) -> nat
    decreases block,
{
    match block.combinator {
        Combinator::Chain => chain_time(block.children),
        Combinator::All => longest_time(block.children),
        Combinator::Flow(stagger) => flow_time(block.children, stagger@),
    }
}

/// The saturating sum of the nodes' times, in order.
pub open spec fn chain_time(nodes: Seq<NodeV>) -> nat
    decreases nodes,
{
    if nodes.len() == 0 {
        0
    } else {
        sat_add(chain_time(nodes.drop_last()), node_time(nodes.last()))
    }
}

/// The longest of the nodes' times; zero for none.
pub open spec fn longest_time(nodes: Seq<NodeV>) -> nat
    decreases nodes,
{
    if nodes.len() == 0 {
        0
    } else {
        let rest = longest_time(nodes.drop_last());
        let last = node_time(nodes.last());
        if rest >= last {
            rest
        } else {
            last
        }
    }
}

/// The stagger the `i`th child of a flow starts at. The child's index
/// is taken as a `u32`, as the compiled animation takes it.
pub open spec fn flow_offset(stagger: nat, i: int) -> nat {
    sat_mul(stagger, (i as u32) as nat)
}

/// The latest any of the nodes ends when each starts its stagger
/// after the one before; zero for none.
pub open spec fn flow_time(nodes: Seq<NodeV>, stagger: nat) -> nat
    decreases nodes,
{
    if nodes.len() == 0 {
        0
    } else {
        let rest = flow_time(nodes.drop_last(), stagger);
        let last = sat_add(flow_offset(stagger, nodes.len() - 1), node_time(nodes.last()));
        if rest >= last {
            rest
        } else {
            last
        }
    }
}

/// When the `i`th child of a chain starts, the chain starting at
/// `start`.
pub open spec fn chain_start(nodes: Seq<NodeV>, start: nat, i: int) -> nat
    decreases i,
{
    if i <= 0 {
        start
    } else {
        sat_add(chain_start(nodes, start, i - 1), node_time(nodes[i - 1]))
    }
}

/// When the `i`th child of `block` starts, the block starting at
/// `start`. This is where the child's slot begins; its own delay
/// comes on top.
pub open spec fn child_start(block: BlockV, start: nat, i: int) -> nat {
    match block.combinator {
        Combinator::Chain => chain_start(block.children, start, i),
        Combinator::All => start,
        Combinator::Flow(stagger) => sat_add(start, flow_offset(stagger@, i)),
    }
}

/// When a node whose slot begins at `slot` starts: after its own delay.
pub open spec fn start_in_slot(node: NodeV, slot: nat) -> nat {
    sat_add(slot, delay_len(crate::scene::delay_of(node)))
}

/// How long a node runs once started, its delay not counted.
pub open spec fn own_time(node: NodeV) -> nat {
    match node {
        NodeV::Action { action, .. } => action.duration@,
        NodeV::Block { block, .. } => block_time(block),
        NodeV::Draft { duration, .. } => duration@,
    }
}

/// Saturating addition is that of the numbers, held at the longest
/// span, so it regroups and reorders freely.
proof fn lemma_sat_add_regroups(a: nat, b: nat, c: nat)
    ensures
        sat_add(sat_add(a, b), c) == sat_add(a, sat_add(b, c)),
        sat_add(a, b) == sat_add(b, a),
{
}

/// A node ends where its slot begins, plus its whole time: delay and
/// running time.
pub proof fn lemma_node_ends(node: NodeV, slot: nat)
    requires
        slot <= crate::span::max_nanos(),
    ensures
        sat_add(start_in_slot(node, slot), own_time(node)) == sat_add(slot, node_time(node)),
        slot <= start_in_slot(node, slot),
{
    lemma_sat_add_regroups(slot, delay_len(crate::scene::delay_of(node)), own_time(node));
}

/// Where the `i`th child of a chain starts is its start plus the time
/// of those before it.
proof fn lemma_chain_start(nodes: Seq<NodeV>, start: nat, i: int)
    requires
        0 <= i <= nodes.len(),
        start <= crate::span::max_nanos(),
    ensures
        chain_start(nodes, start, i) == sat_add(start, chain_time(nodes.take(i))),
    decreases i,
{
    if i > 0 {
        lemma_chain_start(nodes, start, i - 1);
        assert(nodes.take(i).drop_last() =~= nodes.take(i - 1));
        assert(nodes.take(i).last() == nodes[i - 1]);
        lemma_sat_add_regroups(start, chain_time(nodes.take(i - 1)), node_time(nodes[i - 1]));
    } else {
        assert(nodes.take(0) =~= Seq::<NodeV>::empty());
    }
}

/// A chain of more nodes runs no shorter.
proof fn lemma_chain_grows(nodes: Seq<NodeV>, i: int, j: int)
    requires
        0 <= i <= j <= nodes.len(),
    ensures
        chain_time(nodes.take(i)) <= chain_time(nodes.take(j)),
    decreases j - i,
{
    if i < j {
        lemma_chain_grows(nodes, i, j - 1);
        assert(nodes.take(j).drop_last() =~= nodes.take(j - 1));
    }
}

/// The longest of some nodes' times is at least each of them.
proof fn lemma_longest_covers(nodes: Seq<NodeV>, i: int)
    requires
        0 <= i < nodes.len(),
    ensures
        node_time(nodes[i]) <= longest_time(nodes),
    decreases nodes.len(),
{
    if i < nodes.len() - 1 {
        lemma_longest_covers(nodes.drop_last(), i);
    }
}

/// The latest a flow's children end is at least when each of them
/// does.
proof fn lemma_flow_covers(nodes: Seq<NodeV>, stagger: nat, i: int)
    requires
        0 <= i < nodes.len(),
    ensures
        sat_add(flow_offset(stagger, i), node_time(nodes[i])) <= flow_time(nodes, stagger),
    decreases nodes.len(),
{
    if i < nodes.len() - 1 {
        lemma_flow_covers(nodes.drop_last(), stagger, i);
    }
}

/// A block runs from its start until each of its children is done:
/// each child starts no earlier than the block, and ends no later.
pub proof fn lemma_children_within(block: BlockV, start: nat, i: int)
    requires
        0 <= i < block.children.len(),
        start <= crate::span::max_nanos(),
    ensures
        start <= start_in_slot(block.children[i], child_start(block, start, i)),
        sat_add(start_in_slot(block.children[i], child_start(block, start, i)), own_time(block.children[i]))
            <= sat_add(start, block_time(block)),
{
    let c = block.children[i];
    let slot = child_start(block, start, i);
    lemma_node_ends(c, slot);
    match block.combinator {
        Combinator::Chain => {
            lemma_chain_start(block.children, start, i);
            lemma_chain_start(block.children, start, i + 1);
            lemma_chain_grows(block.children, i + 1, block.children.len() as int);
            assert(block.children.take(block.children.len() as int) =~= block.children);
        },
        Combinator::All => {
            lemma_longest_covers(block.children, i);
        },
        Combinator::Flow(stagger) => {
            lemma_flow_covers(block.children, stagger@, i);
            lemma_sat_add_regroups(start, flow_offset(stagger@, i), node_time(c));
        },
    }
}

/// The longest of some nodes' times is one of them.
proof fn lemma_longest_attained(nodes: Seq<NodeV>) -> (i: int)
    requires
        nodes.len() > 0,
    ensures
        0 <= i < nodes.len(),
        node_time(nodes[i]) == longest_time(nodes),
    decreases nodes.len(),
{
    if nodes.len() == 1 {
        assert(nodes.drop_last().len() == 0);
        assert(longest_time(nodes.drop_last()) == 0);
        assert(nodes.last() == nodes[0]);
        0
    } else {
        let rest = nodes.drop_last();
        let j = lemma_longest_attained(rest);
        if longest_time(rest) >= node_time(nodes.last()) {
            assert(rest[j] == nodes[j]);
            j
        } else {
            nodes.len() - 1
        }
    }
}

/// The latest a flow's children end is when one of them does.
proof fn lemma_flow_attained(nodes: Seq<NodeV>, stagger: nat) -> (i: int)
    requires
        nodes.len() > 0,
    ensures
        0 <= i < nodes.len(),
        sat_add(flow_offset(stagger, i), node_time(nodes[i])) == flow_time(nodes, stagger),
    decreases nodes.len(),
{
    if nodes.len() == 1 {
        assert(nodes.drop_last().len() == 0);
        assert(flow_time(nodes.drop_last(), stagger) == 0);
        assert(nodes.last() == nodes[0]);
        0
    } else {
        let rest = nodes.drop_last();
        let j = lemma_flow_attained(rest, stagger);
        let last = sat_add(flow_offset(stagger, nodes.len() - 1), node_time(nodes.last()));
        if flow_time(rest, stagger) >= last {
            assert(rest[j] == nodes[j]);
            j
        } else {
            nodes.len() - 1
        }
    }
}

/// A block is done exactly when its last child to finish is: some
/// child ends right where the block does (for a chain, its last child;
/// for an overlap, its longest; for a flow, the latest to end). A
/// block with no children takes no time.
pub proof fn lemma_block_ends_with_a_child(block: BlockV, start: nat) -> (i: int)
    requires
        start <= crate::span::max_nanos(),
    ensures
        block.children.len() == 0 ==> block_time(block) == 0,
        block.children.len() > 0 ==> 0 <= i < block.children.len() && sat_add(
            start_in_slot(block.children[i], child_start(block, start, i)),
            own_time(block.children[i]),
        ) == sat_add(start, block_time(block)),
        block.children.len() > 0 && block.combinator is Chain ==> i == block.children.len() - 1,
{
    let nodes = block.children;
    let n = nodes.len() as int;
    if n == 0 {
        return 0;
    }
    let i = match block.combinator {
        Combinator::Chain => n - 1,
        Combinator::All => lemma_longest_attained(nodes),
        Combinator::Flow(stagger) => lemma_flow_attained(nodes, stagger@),
    };
    let c = nodes[i];
    let slot = child_start(block, start, i);
    lemma_node_ends(c, slot);
    match block.combinator {
        Combinator::Chain => {
            lemma_chain_start(nodes, start, n - 1);
            assert(nodes.take(n - 1) =~= nodes.drop_last());
            lemma_sat_add_regroups(start, chain_time(nodes.drop_last()), node_time(c));
        },
        Combinator::All => {},
        Combinator::Flow(stagger) => {
            lemma_sat_add_regroups(start, flow_offset(stagger@, i), node_time(c));
        },
    }
    i
}

/// How a block lays its children out in time: a chain starts each
/// child's slot where the one before it ends, the first at the block's
/// start; an overlap starts every slot at the block's start; a flow
/// starts the `i`th slot `i` staggers after the block's start.
pub proof fn lemma_slots(block: BlockV, start: nat, i: int)
    requires
        0 <= i < block.children.len(),
        start <= crate::span::max_nanos(),
    ensures
        block.combinator is Chain && i == 0 ==> child_start(block, start, i) == start,
        block.combinator is Chain && i > 0 ==> child_start(block, start, i) == sat_add(
            start_in_slot(block.children[i - 1], child_start(block, start, i - 1)),
            own_time(block.children[i - 1]),
        ),
        block.combinator is All ==> child_start(block, start, i) == start,
        block.combinator is Flow ==> child_start(block, start, i) == sat_add(
            start,
            sat_mul(block.combinator->Flow_0@, (i as u32) as nat),
        ),
{
    if block.combinator is Chain && i > 0 {
        lemma_chain_start(block.children, start, i - 1);
        lemma_node_ends(block.children[i - 1], child_start(block, start, i - 1));
    }
}

/// A node's own delay, or no time.
pub fn delay_or_zero(delay: &Option<Span>) -> (r: Span)
    ensures
        r@ == delay_len(*delay),
{
    match delay {
        Some(d) => *d,
        None => Span::zero(),
    }
}

/// A node's own duration, including its `delay`: how much it advances
/// its parent block's chain/flow position.
pub fn node_duration(node: &Node) -> (r: Span)
    ensures
        r@ == node_time(node@),
    decreases node@,
{
    match node {
        Node::Action { delay, action } => action.duration.saturating_add(delay_or_zero(delay)),
        Node::Block { delay, block } => {
            proof {
                assert(node@->Block_block == block@);
                assert(decreases_to!(node@ => node@->Block_block));
            }
            block_duration(block).saturating_add(delay_or_zero(delay))
        },
        Node::Draft { delay, duration, .. } => duration.saturating_add(delay_or_zero(delay)),
    }
}

/// A block's total duration under its combinator.
pub fn block_duration(block: &Block) -> (r: Span)
    ensures
        r@ == block_time(block@),
    decreases block@,
{
    let ghost bv = block@;
    let mut acc = Span::zero();
    let mut k: usize = 0;
    assert(bv.children.take(0) =~= Seq::<NodeV>::empty());
    while k < block.children.len()
        invariant
            k <= block.children@.len(),
            bv == block@,
            acc@ == match bv.combinator {
                Combinator::Chain => chain_time(bv.children.take(k as int)),
                Combinator::All => longest_time(bv.children.take(k as int)),
                Combinator::Flow(stagger) => flow_time(bv.children.take(k as int), stagger@),
            },
        decreases block.children@.len() - k,
    {
        assert(bv.children.take(k + 1).drop_last() =~= bv.children.take(k as int));
        assert(bv.children.take(k + 1).last() == bv.children[k as int]);
        assert(decreases_to!(bv => bv.children[k as int]));
        let d = node_duration(&block.children[k]);
        acc = match block.combinator {
            Combinator::Chain => acc.saturating_add(d),
            Combinator::All => acc.max(d),
            Combinator::Flow(stagger) => {
                let offset = stagger.saturating_mul(k as u32);
                acc.max(offset.saturating_add(d))
            },
        };
        k = k + 1;
    }
    assert(bv.children.take(k as int) =~= bv.children);
    acc
}

} // verus!
