//! Lays a scene's block tree out as nested boxes. A block is a
//! container spanning its time range, holding its children as bars
//! (actions and drafts) or nested containers (blocks).
//!
//! Each box is placed in time (where it starts and ends, and the delay
//! before it) and in rows (how far down it sits and how tall it is).
//! Turning time into pixels is the view's business; nesting only ever
//! affects the vertical axis: a block's box encloses its children's.

use vstd::prelude::*;
use vstd::string::*;

use crate::scene::{
    Block, BlockV, Combinator, Node, NodeV, copy_name, delay_of, lemma_block_view, lemma_nodes_view,
    name_view,
};
use crate::span::{Span, sat_add, sat_sub};
use crate::timing::{
    block_duration, block_time, chain_start, child_start, delay_len, delay_or_zero, node_duration,
};
use crate::tree::same_path;

verus! {

broadcast use {lemma_nodes_view, lemma_block_view};

/// Height of an action or draft bar.
pub const ROW_HEIGHT: u64 = 26;

/// Height of a block's header strip.
pub const HEADER_HEIGHT: u64 = 24;

/// Vertical gap between lanes that would otherwise overlap in time.
pub const LANE_GAP: u64 = 2;

/// `a + b` rows, held at the largest offset there is.
pub open spec fn hadd(a: nat, b: nat) -> nat {
    if a + b > u64::MAX {
        u64::MAX as nat
    } else {
        a + b
    }
}

/// Whether a block's children sit each in a lane of its own. A chain's
/// never overlap in time, so they share one row; an overlap's or a
/// flow's can, so each gets its own.
pub open spec fn stacks(combinator: Combinator) -> bool {
    !(combinator is Chain)
}

/// How tall a node's box is, the node sitting at `path`, with the
/// blocks at `folded` collapsed to their header.
pub open spec fn node_height(node: NodeV, path: Seq<usize>, folded: Seq<Seq<usize>>) -> nat
    decreases node,
{
    match node {
        NodeV::Block { block, .. } => block_height(block, path, folded),
        _ => ROW_HEIGHT as nat,
    }
}

/// How tall a block's box is: its header, and its children's lanes
/// unless it is folded.
pub open spec fn block_height(block: BlockV, path: Seq<usize>, folded: Seq<Seq<usize>>) -> nat
    decreases block,
{
    if folded.contains(path) {
        HEADER_HEIGHT as nat
    } else {
        hadd(HEADER_HEIGHT as nat, content_height(block.children, stacks(block.combinator), path, folded))
    }
}

/// Where the lane after `nodes` would go, each of them taking a lane
/// of its own under the one before.
pub open spec fn lanes_end(nodes: Seq<NodeV>, path: Seq<usize>, folded: Seq<Seq<usize>>) -> nat
    decreases nodes,
{
    if nodes.len() == 0 {
        0
    } else {
        let i = (nodes.len() - 1) as usize;
        hadd(
            hadd(lanes_end(nodes.drop_last(), path, folded), node_height(nodes.last(), path.push(i), folded)),
            LANE_GAP as nat,
        )
    }
}

/// How far below its parent's header the `i`th child's lane sits.
pub open spec fn lane_y(
    children: Seq<NodeV>,
    stacked: bool,
    path: Seq<usize>,
    folded: Seq<Seq<usize>>,
    i: int,
) -> nat {
    if stacked {
        lanes_end(children.take(i), path, folded)
    } else {
        0
    }
}

/// How tall the lanes of `nodes` run below their parent's header: the
/// lowest bottom any of them reaches.
pub open spec fn content_height(
    nodes: Seq<NodeV>,
    stacked: bool,
    path: Seq<usize>,
    folded: Seq<Seq<usize>>,
) -> nat
    decreases nodes,
{
    if nodes.len() == 0 {
        0
    } else {
        let i = (nodes.len() - 1) as usize;
        let rest = content_height(nodes.drop_last(), stacked, path, folded);
        let y = if stacked {
            lanes_end(nodes.drop_last(), path, folded)
        } else {
            0
        };
        let bottom = hadd(y, node_height(nodes.last(), path.push(i), folded));
        if rest >= bottom {
            rest
        } else {
            bottom
        }
    }
}

/// A block's box holds each child's: a child's lane, from its top to
/// its bottom, lies within the content height below the header.
pub proof fn lemma_children_fit(
    children: Seq<NodeV>,
    stacked: bool,
    path: Seq<usize>,
    folded: Seq<Seq<usize>>,
    i: int,
)
    requires
        0 <= i < children.len(),
    ensures
        hadd(lane_y(children, stacked, path, folded, i), node_height(children[i], path.push(i as usize), folded))
            <= content_height(children, stacked, path, folded),
    decreases children.len(),
{
    let last = children.len() - 1;
    assert(children.drop_last().take(i) =~= children.take(i));
    if i < last {
        lemma_children_fit(children.drop_last(), stacked, path, folded, i);
        assert(children.drop_last()[i] == children[i]);
    } else {
        assert(children.take(i) =~= children.drop_last());
    }
}

/// Lanes laid one under another never overlap: each child's lane
/// starts at or below where the lane before it ends.
pub proof fn lemma_lanes_apart(
    children: Seq<NodeV>,
    path: Seq<usize>,
    folded: Seq<Seq<usize>>,
    i: int,
)
    requires
        0 <= i,
        i + 1 < children.len(),
    ensures
        hadd(lane_y(children, true, path, folded, i), node_height(children[i], path.push(i as usize), folded))
            <= lane_y(children, true, path, folded, i + 1),
{
    assert(children.take(i + 1).drop_last() =~= children.take(i));
    assert(children.take(i + 1).last() == children[i]);
}

/// `a + b` rows, held at the largest offset there is.
pub fn rows_add(a: u64, b: u64) -> (r: u64)
    ensures
        r == hadd(a as nat, b as nat),
{
    match a.checked_add(b) {
        Some(v) => v,
        None => u64::MAX,
    }
}

/// The folded paths, as plain values.
pub open spec fn folded_view(folded: Seq<Vec<usize>>) -> Seq<Seq<usize>> {
    folded.map_values(|p: Vec<usize>| p@)
}

/// Whether the block at `path` is folded.
pub fn is_folded(folded: &Vec<Vec<usize>>, path: &Vec<usize>) -> (r: bool)
    ensures
        r == folded_view(folded@).contains(path@),
{
    let mut k: usize = 0;
    while k < folded.len()
        invariant
            k <= folded@.len(),
            forall|j: int| 0 <= j < k ==> folded@[j]@ != path@,
        decreases folded@.len() - k,
    {
        if same_path(folded[k].as_slice(), path.as_slice()) {
            assert(folded_view(folded@)[k as int] == path@);
            return true;
        }
        k = k + 1;
    }
    assert forall|j: int| 0 <= j < folded_view(folded@).len() implies folded_view(folded@)[j]
        != path@ by {
        assert(folded_view(folded@)[j] == folded@[j]@);
    }
    false
}

/// How tall a node's box is.
pub fn node_height_of(node: &Node, path: &mut Vec<usize>, folded: &Vec<Vec<usize>>) -> (r: u64)
    ensures
        r == node_height(node@, old(path)@, folded_view(folded@)),
        final(path)@ == old(path)@,
    decreases node@,
{
    match node {
        Node::Block { block, .. } => {
            proof {
                assert(node@->Block_block == block@);
                assert(decreases_to!(node@ => node@->Block_block));
            }
            block_height_of(block, path, folded)
        },
        _ => ROW_HEIGHT,
    }
}

/// How tall a block's box is.
pub fn block_height_of(block: &Block, path: &mut Vec<usize>, folded: &Vec<Vec<usize>>) -> (r: u64)
    ensures
        r == block_height(block@, old(path)@, folded_view(folded@)),
        final(path)@ == old(path)@,
    decreases block@,
{
    let ghost bv = block@;
    let ghost fv = folded_view(folded@);
    let ghost base = path@;
    if is_folded(folded, path) {
        return HEADER_HEIGHT;
    }
    let stacked = match block.combinator {
        Combinator::Chain => false,
        _ => true,
    };
    let mut lane: u64 = 0;
    let mut content: u64 = 0;
    let mut i: usize = 0;
    assert(bv.children.take(0) =~= Seq::<NodeV>::empty());
    while i < block.children.len()
        invariant
            i <= block.children@.len(),
            bv == block@,
            fv == folded_view(folded@),
            path@ == base,
            stacked == stacks(bv.combinator),
            lane == lanes_end(bv.children.take(i as int), base, fv),
            content == content_height(bv.children.take(i as int), stacked, base, fv),
        decreases block.children@.len() - i,
    {
        assert(bv.children.take(i + 1).drop_last() =~= bv.children.take(i as int));
        assert(bv.children.take(i + 1).last() == bv.children[i as int]);
        assert(decreases_to!(bv => bv.children[i as int]));
        path.push(i);
        let h = node_height_of(&block.children[i], path, folded);
        path.pop();
        assert(path@ =~= base);
        let y = if stacked {
            lane
        } else {
            0
        };
        let bottom = rows_add(y, h);
        if bottom > content {
            content = bottom;
        }
        lane = rows_add(rows_add(lane, h), LANE_GAP);
        i = i + 1;
    }
    assert(bv.children.take(i as int) =~= bv.children);
    rows_add(HEADER_HEIGHT, content)
}

/// What a block's header is titled by: the block's name, or, for a
/// block without one, its combinator, which the caller writes out.
#[derive(Clone, Debug)]
pub enum Heading {
    Named(String),
    Unnamed(Combinator),
}

/// A header's title as plain values.
pub enum HeadingV {
    Named(Seq<char>),
    Unnamed(Combinator),
}

/// A header title's plain value.
pub open spec fn heading_view(heading: Heading) -> HeadingV {
    match heading {
        Heading::Named(name) => HeadingV::Named(name@),
        Heading::Unnamed(combinator) => HeadingV::Unnamed(combinator),
    }
}

/// A block's header title: its name if it has one, its combinator
/// otherwise.
pub open spec fn block_heading_of(block: BlockV) -> HeadingV {
    match block.name {
        Some(name) => HeadingV::Named(name),
        None => HeadingV::Unnamed(block.combinator),
    }
}

/// A block's header title: its name if it has one, its combinator
/// otherwise.
pub fn block_heading(block: &Block) -> (r: Heading)
    ensures
        heading_view(r) == block_heading_of(block@),
{
    match &block.name {
        Some(name) => Heading::Named(name.clone()),
        None => Heading::Unnamed(block.combinator),
    }
}

/// A heading, if there is one, as plain values.
pub open spec fn heading_opt_view(heading: Option<Heading>) -> Option<HeadingV> {
    match heading {
        Some(h) => Some(heading_view(h)),
        None => None,
    }
}

/// The text on a leaf's bar: its own name, else `Draft` for a draft,
/// else nothing.
pub open spec fn leaf_text(name: Option<Seq<char>>, draft: bool) -> Seq<char> {
    match name {
        Some(n) => n,
        None => if draft {
            seq!['D', 'r', 'a', 'f', 't']
        } else {
            Seq::<char>::empty()
        },
    }
}

/// The text on a leaf's bar: its own name, else `Draft` for a draft
/// slot, else nothing.
pub fn leaf_label(name: &Option<String>, draft: bool) -> (r: String)
    ensures
        r@ == leaf_text(name_view(*name), draft),
{
    match name {
        Some(n) => n.clone(),
        None => if draft {
            proof {
                reveal_strlit("Draft");
            }
            String::from_str("Draft")
        } else {
            String::new()
        },
    }
}

/// The line that ties a flow's child to the one before it: from the
/// middle of the stretch between the two slots' starts, down from the
/// bottom of the one before, to the middle of this one's row.
#[derive(Clone, Copy, Debug, PartialEq, Eq, Structural)]
pub struct Link {
    /// Where the one before's slot starts.
    pub from: Span,
    /// Where this one's slot starts.
    pub to: Span,
    /// The row the line leaves from: the bottom of the one before.
    pub top: u64,
    /// The row the line reaches: the middle of this one.
    pub bottom: u64,
}

/// A link as plain values: from, to, top, bottom.
pub open spec fn link_view(link: Option<Link>) -> Option<(nat, nat, nat, nat)> {
    match link {
        Some(l) => Some((l.from@, l.to@, l.top as nat, l.bottom as nat)),
        None => None,
    }
}

/// The box of a node's parent block: where it starts and ends, and the
/// row it sits at. What a child's place is measured against.
#[derive(Clone, Copy, Debug, PartialEq, Eq, Structural)]
pub struct Bounds {
    pub start: Span,
    pub end: Span,
    pub y: u64,
}

/// Parent bounds as plain values: start, end, row.
pub open spec fn bounds_view(bounds: Option<Bounds>) -> Option<(nat, nat, nat)> {
    match bounds {
        Some(b) => Some((b.start@, b.end@, b.y as nat)),
        None => None,
    }
}

/// One box to draw: a block's header (its name, or its combinator if
/// unnamed) or a leaf's bar.
#[derive(Debug)]
pub struct Placed {
    /// When the node starts, after its own delay.
    pub start: Span,
    /// When the node ends: its start and its own running time.
    pub end: Span,
    /// The node's own delay: the stretch before `start` reserved for
    /// it but not yet running. Zero for the root.
    pub gap: Span,
    /// Rows down from the top of the tree's box.
    pub y: u64,
    /// Rows tall.
    pub h: u64,
    /// How deep in the tree the node sits; the root is at zero.
    pub depth: usize,
    /// `Some` for a block's header, with its title; `None` for a leaf.
    pub label: Option<Heading>,
    /// A leaf's own name, if set. `None` for a block, whose name is
    /// already its label.
    pub name: Option<String>,
    /// Whether a block's children are folded away. Always `false` for
    /// a leaf.
    pub folded: bool,
    /// Whether the leaf is a draft: a slot not yet given an action.
    pub draft: bool,
    /// The line from the sibling before, for a flow's child after the
    /// first.
    pub link: Option<Link>,
    /// The enclosing block's box; `None` for the root.
    pub parent: Option<Bounds>,
    /// Where the node sits in the tree: the child index at each depth,
    /// root first.
    pub path: Vec<usize>,
}

/// What a box is, as plain values.
#[verifier::ext_equal]
pub struct PlacedV {
    pub start: nat,
    pub end: nat,
    pub gap: nat,
    pub y: nat,
    pub h: nat,
    pub depth: nat,
    pub label: Option<HeadingV>,
    pub name: Option<Seq<char>>,
    pub folded: bool,
    pub draft: bool,
    pub link: Option<(nat, nat, nat, nat)>,
    pub parent: Option<(nat, nat, nat)>,
    pub path: Seq<usize>,
}

impl View for Placed {
    type V = PlacedV;

    open spec fn view(&self) -> PlacedV {
        PlacedV {
            start: self.start@,
            end: self.end@,
            gap: self.gap@,
            y: self.y as nat,
            h: self.h as nat,
            depth: self.depth as nat,
            label: heading_opt_view(self.label),
            name: name_view(self.name),
            folded: self.folded,
            draft: self.draft,
            link: link_view(self.link),
            parent: bounds_view(self.parent),
            path: self.path@,
        }
    }
}

/// A run of boxes, as plain values.
pub open spec fn placed_views(boxes: Seq<Placed>) -> Seq<PlacedV> {
    boxes.map_values(|p: Placed| p@)
}

/// When a node whose slot starts at `slot` starts: after its own
/// delay.
pub open spec fn node_start(node: NodeV, slot: nat) -> nat {
    sat_add(slot, delay_len(delay_of(node)))
}

/// How long a leaf runs, not counting its delay.
pub open spec fn leaf_time(node: NodeV) -> nat {
    match node {
        NodeV::Action { action, .. } => action.duration@,
        NodeV::Draft { duration, .. } => duration@,
        NodeV::Block { .. } => 0,
    }
}

/// A leaf's own name.
pub open spec fn leaf_name(node: NodeV) -> Option<Seq<char>> {
    match node {
        NodeV::Action { action, .. } => action.name,
        NodeV::Draft { name, .. } => name,
        NodeV::Block { .. } => None,
    }
}

/// The bar of a leaf whose slot starts at `slot`.
pub open spec fn leaf_box(
    node: NodeV,
    slot: nat,
    y: nat,
    parent: Option<(nat, nat, nat)>,
    link: Option<(nat, nat, nat, nat)>,
    path: Seq<usize>,
) -> PlacedV {
    let start = node_start(node, slot);
    PlacedV {
        start,
        end: sat_add(start, leaf_time(node)),
        gap: delay_len(delay_of(node)),
        y,
        h: ROW_HEIGHT as nat,
        depth: path.len(),
        label: None,
        name: leaf_name(node),
        folded: false,
        draft: node is Draft,
        link,
        parent,
        path,
    }
}

/// A block's own header box, the block starting at `start` after a
/// delay of `gap`.
pub open spec fn block_box(
    block: BlockV,
    start: nat,
    gap: nat,
    y: nat,
    parent: Option<(nat, nat, nat)>,
    link: Option<(nat, nat, nat, nat)>,
    path: Seq<usize>,
    folded: Seq<Seq<usize>>,
) -> PlacedV {
    PlacedV {
        start,
        end: sat_add(start, block_time(block)),
        gap,
        y,
        h: block_height(block, path, folded),
        depth: path.len(),
        label: Some(block_heading_of(block)),
        name: None,
        folded: folded.contains(path),
        draft: false,
        link,
        parent,
        path,
    }
}

/// Where the `i`th child's slot begins: its start, less its own delay.
pub open spec fn slot_of(block: BlockV, start: nat, i: int) -> nat {
    sat_sub(node_start(block.children[i], child_start(block, start, i)), delay_len(delay_of(block.children[i])))
}

/// The row the `i`th child of a block at row `y` sits at.
pub open spec fn child_y(block: BlockV, y: nat, path: Seq<usize>, folded: Seq<Seq<usize>>, i: int) -> nat {
    hadd(hadd(y, HEADER_HEIGHT as nat), lane_y(block.children, stacks(block.combinator), path, folded, i))
}

/// The link into the `i`th child of a block: only a flow's children
/// after the first have one, and only where the two slots start apart
/// and the line has somewhere to go down to.
pub open spec fn link_for(
    block: BlockV,
    start: nat,
    y: nat,
    path: Seq<usize>,
    folded: Seq<Seq<usize>>,
    i: int,
) -> Option<(nat, nat, nat, nat)> {
    if block.combinator is Flow && i >= 1 {
        let from = slot_of(block, start, i - 1);
        let to = slot_of(block, start, i);
        let top = hadd(
            child_y(block, y, path, folded, i - 1),
            node_height(block.children[i - 1], path.push((i - 1) as usize), folded),
        );
        let bottom = hadd(
            child_y(block, y, path, folded, i),
            node_height(block.children[i], path.push(i as usize), folded) / 2,
        );
        if from < to && top < bottom {
            Some((from, to, top, bottom))
        } else {
            None
        }
    } else {
        None
    }
}

/// Every box of a node whose slot starts at `slot`, depth-first: its
/// own first.
pub open spec fn node_boxes(
    node: NodeV,
    slot: nat,
    y: nat,
    parent: Option<(nat, nat, nat)>,
    link: Option<(nat, nat, nat, nat)>,
    path: Seq<usize>,
    folded: Seq<Seq<usize>>,
) -> Seq<PlacedV>
    decreases node,
{
    match node {
        NodeV::Block { delay, block } => block_boxes(
            block,
            node_start(node, slot),
            delay_len(delay),
            y,
            parent,
            link,
            path,
            folded,
        ),
        _ => seq![leaf_box(node, slot, y, parent, link, path)],
    }
}

/// Every box of a block, depth-first: its header, then each child's
/// unless it is folded.
pub open spec fn block_boxes(
    block: BlockV,
    start: nat,
    gap: nat,
    y: nat,
    parent: Option<(nat, nat, nat)>,
    link: Option<(nat, nat, nat, nat)>,
    path: Seq<usize>,
    folded: Seq<Seq<usize>>,
) -> Seq<PlacedV>
    decreases block,
{
    let head = block_box(block, start, gap, y, parent, link, path, folded);
    if folded.contains(path) {
        seq![head]
    } else {
        seq![head] + children_boxes(block, start, y, path, folded, block.children)
    }
}

/// The boxes of a block's first children, `nodes` being the first of
/// its children, each child's boxes after those of the one before.
pub open spec fn children_boxes(
    block: BlockV,
    start: nat,
    y: nat,
    path: Seq<usize>,
    folded: Seq<Seq<usize>>,
    nodes: Seq<NodeV>,
) -> Seq<PlacedV>
    decreases nodes,
{
    if nodes.len() == 0 {
        Seq::empty()
    } else {
        let i = nodes.len() - 1;
        children_boxes(block, start, y, path, folded, nodes.drop_last()) + node_boxes(
            nodes.last(),
            child_start(block, start, i),
            child_y(block, y, path, folded, i),
            Some((start, sat_add(start, block_time(block)), y)),
            link_for(block, start, y, path, folded, i),
            path.push(i as usize),
            folded,
        )
    }
}

/// Every box of the tree under `root`, depth-first; the root's own
/// box is the timeline's outer frame. A root with nothing under it
/// gets no box at all.
pub open spec fn layout_boxes(root: BlockV, folded: Seq<Seq<usize>>) -> Seq<PlacedV> {
    if root.children.len() == 0 {
        Seq::empty()
    } else {
        block_boxes(root, 0, 0, 0, None, None, Seq::empty(), folded)
    }
}

/// A node's own delay, or no time.
fn own_delay(node: &Node) -> (r: Span)
    ensures
        r@ == delay_len(delay_of(node@)),
{
    match node {
        Node::Action { delay, .. } => delay_or_zero(delay),
        Node::Block { delay, .. } => delay_or_zero(delay),
        Node::Draft { delay, .. } => delay_or_zero(delay),
    }
}

/// Appends every box of `node`, its slot starting at `slot`.
fn place_node(
    node: &Node,
    slot: Span,
    y: u64,
    parent: Option<Bounds>,
    link: Option<Link>,
    path: &mut Vec<usize>,
    folded: &Vec<Vec<usize>>,
    out: &mut Vec<Placed>,
)
    ensures
        placed_views(final(out)@) == placed_views(old(out)@) + node_boxes(
            node@,
            slot@,
            y as nat,
            bounds_view(parent),
            link_view(link),
            old(path)@,
            folded_view(folded@),
        ),
        final(path)@ == old(path)@,
    decreases node@,
{
    let ghost before = out@;
    let d = own_delay(node);
    let start = slot.saturating_add(d);
    match node {
        Node::Block { block, .. } => {
            proof {
                assert(node@->Block_block == block@);
                assert(decreases_to!(node@ => node@->Block_block));
            }
            place_block(block, start, d, y, parent, link, path, folded, out);
        },
        Node::Action { action, .. } => {
            let p = Placed {
                start,
                end: start.saturating_add(action.duration),
                gap: d,
                y,
                h: ROW_HEIGHT,
                depth: path.len(),
                label: None,
                name: copy_name(&action.name),
                folded: false,
                draft: false,
                link,
                parent,
                path: vstd::slice::slice_to_vec(path.as_slice()),
            };
            out.push(p);
            assert(placed_views(out@) =~= placed_views(before).push(p@));
        },
        Node::Draft { duration, name, .. } => {
            let p = Placed {
                start,
                end: start.saturating_add(*duration),
                gap: d,
                y,
                h: ROW_HEIGHT,
                depth: path.len(),
                label: None,
                name: copy_name(name),
                folded: false,
                draft: true,
                link,
                parent,
                path: vstd::slice::slice_to_vec(path.as_slice()),
            };
            out.push(p);
            assert(placed_views(out@) =~= placed_views(before).push(p@));
        },
    }
}

/// The lanes of the first `i + 1` children end where those of the
/// first `i` do, plus the `i`th child's height and a gap.
proof fn lemma_lanes_step(children: Seq<NodeV>, path: Seq<usize>, folded: Seq<Seq<usize>>, i: int)
    requires
        0 <= i < children.len(),
    ensures
        lanes_end(children.take(i + 1), path, folded) == hadd(
            hadd(lanes_end(children.take(i), path, folded), node_height(children[i], path.push(i as usize), folded)),
            LANE_GAP as nat,
        ),
{
    assert(children.take(i + 1).drop_last() =~= children.take(i));
    assert(children.take(i + 1).last() == children[i]);
}

/// The boxes of a block's first `i + 1` children are those of the
/// first `i`, then the `i`th child's.
proof fn lemma_children_boxes_step(
    block: BlockV,
    start: nat,
    y: nat,
    path: Seq<usize>,
    folded: Seq<Seq<usize>>,
    i: int,
)
    requires
        0 <= i < block.children.len(),
    ensures
        children_boxes(block, start, y, path, folded, block.children.take(i + 1)) == children_boxes(
            block,
            start,
            y,
            path,
            folded,
            block.children.take(i),
        ) + node_boxes(
            block.children[i],
            child_start(block, start, i),
            child_y(block, y, path, folded, i),
            Some((start, sat_add(start, block_time(block)), y)),
            link_for(block, start, y, path, folded, i),
            path.push(i as usize),
            folded,
        ),
{
    assert(block.children.take(i + 1).drop_last() =~= block.children.take(i));
    assert(block.children.take(i + 1).last() == block.children[i]);
}

/// Appends every box of `block`, which starts at `start` after a delay
/// of `gap`.
#[verifier::rlimit(40)]
fn place_block(
    block: &Block,
    start: Span,
    gap: Span,
    y: u64,
    parent: Option<Bounds>,
    link: Option<Link>,
    path: &mut Vec<usize>,
    folded: &Vec<Vec<usize>>,
    out: &mut Vec<Placed>,
)
    ensures
        placed_views(final(out)@) == placed_views(old(out)@) + block_boxes(
            block@,
            start@,
            gap@,
            y as nat,
            bounds_view(parent),
            link_view(link),
            old(path)@,
            folded_view(folded@),
        ),
        final(path)@ == old(path)@,
    decreases block@,
{
    let ghost bv = block@;
    let ghost fv = folded_view(folded@);
    let ghost base = path@;
    let ghost before = out@;
    let h = block_height_of(block, path, folded);
    let end = start.saturating_add(block_duration(block));
    let is_f = is_folded(folded, path);
    let head = Placed {
        start,
        end,
        gap,
        y,
        h,
        depth: path.len(),
        label: Some(block_heading(block)),
        name: None,
        folded: is_f,
        draft: false,
        link,
        parent,
        path: vstd::slice::slice_to_vec(path.as_slice()),
    };
    out.push(head);
    let ghost head_v = block_box(bv, start@, gap@, y as nat, bounds_view(parent), link_view(link), base, fv);
    assert(placed_views(out@) =~= placed_views(before).push(head_v));
    if is_f {
        return;
    }
    let here = Bounds { start, end, y };
    let top = rows_add(y, HEADER_HEIGHT);
    let stacked = match block.combinator {
        Combinator::Chain => false,
        _ => true,
    };
    let flow = match block.combinator {
        Combinator::Flow(_) => true,
        _ => false,
    };
    let mut lane: u64 = 0;
    let mut t = start;
    let mut prev_from = Span::zero();
    let mut prev_bottom: u64 = 0;
    let mut i: usize = 0;
    assert(bv.children.take(0) =~= Seq::<NodeV>::empty());
    assert(placed_views(out@) =~= placed_views(before) + seq![head_v]
        + children_boxes(bv, start@, y as nat, base, fv, bv.children.take(0)));
    while i < block.children.len()
        invariant
            i <= block.children@.len(),
            bv == block@,
            fv == folded_view(folded@),
            path@ == base,
            stacked == stacks(bv.combinator),
            flow == (bv.combinator is Flow),
            top == hadd(y as nat, HEADER_HEIGHT as nat),
            bounds_view(Some(here)) == Some((start@, sat_add(start@, block_time(bv)), y as nat)),
            lane == lanes_end(bv.children.take(i as int), base, fv),
            !stacked ==> t@ == chain_start(bv.children, start@, i as int),
            i > 0 ==> prev_from@ == slot_of(bv, start@, i - 1),
            i > 0 ==> prev_bottom == hadd(
                child_y(bv, y as nat, base, fv, i - 1),
                node_height(bv.children[i - 1], base.push((i - 1) as usize), fv),
            ),
            placed_views(out@) == placed_views(before) + seq![head_v] + children_boxes(
                bv,
                start@,
                y as nat,
                base,
                fv,
                bv.children.take(i as int),
            ),
        decreases block.children@.len() - i,
    {
        let child = &block.children[i];
        proof {
            lemma_lanes_step(bv.children, base, fv, i as int);
            assert(decreases_to!(bv => bv.children[i as int]));
        }
        let slot = match block.combinator {
            Combinator::Chain => t,
            Combinator::All => start,
            Combinator::Flow(stagger) => start.saturating_add(stagger.saturating_mul(i as u32)),
        };
        assert(slot@ == child_start(bv, start@, i as int));
        let lane_here = if stacked {
            lane
        } else {
            0
        };
        let cy = rows_add(top, lane_here);
        assert(cy == child_y(bv, y as nat, base, fv, i as int));
        path.push(i);
        let h = node_height_of(child, path, folded);
        let d = own_delay(child);
        let from_here = slot.saturating_add(d).saturating_sub(d);
        assert(from_here@ == slot_of(bv, start@, i as int));
        let bottom = rows_add(cy, h / 2);
        let into = if flow && i > 0 && prev_from.lt(&from_here) && prev_bottom < bottom {
            Some(Link { from: prev_from, to: from_here, top: prev_bottom, bottom })
        } else {
            None
        };
        assert(link_view(into) == link_for(bv, start@, y as nat, base, fv, i as int));
        place_node(child, slot, cy, Some(here), into, path, folded, out);
        path.pop();
        assert(path@ =~= base);
        prev_from = from_here;
        prev_bottom = rows_add(cy, h);
        lane = rows_add(rows_add(lane, h), LANE_GAP);
        if !stacked {
            t = t.saturating_add(node_duration(child));
        }
        proof {
            lemma_children_boxes_step(bv, start@, y as nat, base, fv, i as int);
            assert(placed_views(out@) =~= placed_views(before) + seq![head_v] + children_boxes(
                bv,
                start@,
                y as nat,
                base,
                fv,
                bv.children.take(i + 1),
            ));
        }
        i = i + 1;
    }
    assert(bv.children.take(i as int) =~= bv.children);
}

/// Every box in `animation`'s tree, depth-first. `animation` itself
/// gets a box too, at depth zero, as the timeline's outer frame; an
/// empty root skips even that, since a combinator with nothing under
/// it yet has nothing worth a box of its own. The blocks at the paths
/// in `folded` keep their duration and lose their children's boxes.
pub fn layout(animation: &Block, folded: &Vec<Vec<usize>>) -> (r: Vec<Placed>)
    ensures
        placed_views(r@) == layout_boxes(animation@, folded_view(folded@)),
{
    let mut out: Vec<Placed> = Vec::new();
    if animation.children.len() == 0 {
        assert(placed_views(out@) =~= Seq::<PlacedV>::empty());
        return out;
    }
    let mut path: Vec<usize> = Vec::new();
    place_block(animation, Span::zero(), Span::zero(), 0, None, None, &mut path, folded, &mut out);
    assert(path@ =~= Seq::<usize>::empty());
    assert(placed_views(Seq::<Placed>::empty()) =~= Seq::<PlacedV>::empty());
    out
}

/// The folded paths as a set.
pub open spec fn folded_set(folded: Seq<Vec<usize>>) -> Set<Seq<usize>> {
    folded_view(folded).to_set()
}

/// `set` with `path` folded if it was open, and open if it was folded.
pub open spec fn toggled(set: Set<Seq<usize>>, path: Seq<usize>) -> Set<Seq<usize>> {
    if set.contains(path) {
        set.remove(path)
    } else {
        set.insert(path)
    }
}

/// Folds the block at `path` if it is open, and opens it if it is
/// folded.
pub fn toggle_folded(folded: &mut Vec<Vec<usize>>, path: &[usize])
    ensures
        folded_set(final(folded)@) == toggled(folded_set(old(folded)@), path@),
{
    let ghost before = folded_view(folded@);
    let mut kept: Vec<Vec<usize>> = Vec::new();
    let mut found = false;
    let mut k: usize = 0;
    while k < folded.len()
        invariant
            k <= folded@.len(),
            before == folded_view(folded@),
            before.len() == folded@.len(),
            found == exists|i: int| 0 <= i < k && before[i] == path@,
            forall|j: int|
                0 <= j < folded_view(kept@).len() ==> #[trigger] folded_view(kept@)[j] != path@
                    && exists|i: int| 0 <= i < k && before[i] == folded_view(kept@)[j],
            forall|i: int|
                0 <= i < k && #[trigger] before[i] != path@ ==> exists|j: int|
                    0 <= j < folded_view(kept@).len() && folded_view(kept@)[j] == before[i],
        decreases folded@.len() - k,
    {
        assert(before[k as int] == folded@[k as int]@);
        let ghost prior = folded_view(kept@);
        if same_path(folded[k].as_slice(), path) {
            found = true;
        } else {
            let copy = vstd::slice::slice_to_vec(folded[k].as_slice());
            kept.push(copy);
            let ghost now = folded_view(kept@);
            assert(now =~= prior.push(before[k as int]));
            assert forall|j: int| 0 <= j < now.len() implies #[trigger] now[j] != path@ && exists|i: int|
                0 <= i < k + 1 && before[i] == now[j] by {
                if j < prior.len() {
                    assert(now[j] == prior[j]);
                } else {
                    assert(before[k as int] == now[j]);
                }
            }
            assert forall|i: int| 0 <= i < k + 1 && #[trigger] before[i] != path@ implies exists|j: int|
                0 <= j < now.len() && now[j] == before[i] by {
                if i < k {
                    let j = choose|j: int| 0 <= j < prior.len() && prior[j] == before[i];
                    assert(now[j] == prior[j]);
                } else {
                    assert(now[prior.len() as int] == before[i]);
                }
            }
        }
        k = k + 1;
    }
    let ghost kv = folded_view(kept@);
    if !found {
        kept.push(vstd::slice::slice_to_vec(path));
        assert(folded_view(kept@) =~= kv.push(path@));
    }
    let ghost after = folded_view(kept@);
    assert(folded_set(kept@) =~= toggled(folded_set(folded@), path@)) by {
        assert forall|q: Seq<usize>| #[trigger] folded_set(kept@).contains(q) == toggled(
            folded_set(folded@),
            path@,
        ).contains(q) by {
            if after.contains(q) {
                let j = choose|j: int| 0 <= j < after.len() && after[j] == q;
                if j < kv.len() {
                    assert(after[j] == kv[j]);
                }
            }
            if before.contains(q) && q != path@ {
                let i = choose|i: int| 0 <= i < before.len() && before[i] == q;
                let j = choose|j: int| 0 <= j < kv.len() && kv[j] == before[i];
                assert(after[j] == kv[j]);
            }
            if !found && q == path@ {
                assert(after[kv.len() as int] == q);
            }
        }
    }
    *folded = kept;
}

/// Folding a block and folding it again, or opening and opening again,
/// leaves the folds as they were.
pub proof fn lemma_toggle_twice(set: Set<Seq<usize>>, path: Seq<usize>)
    ensures
        toggled(toggled(set, path), path) == set,
{
    assert(toggled(toggled(set, path), path) =~= set);
}

} // verus!
