//! Changing one property of one node: what the action panel's inputs
//! and the timeline's edge drags write.
//!
//! An empty path names the tree's own root: a block like any other,
//! just never wrapped in a node of its own, so it has no delay.

use vstd::prelude::*;
use vstd::string::*;

use crate::scene::{Block, BlockV, Combinator, Node, NodeV, name_view};
use crate::span::Span;
use crate::tree::{lemma_with_node_twice, node_in, replace_node, with_node};

verus! {

/// Whether `c` is white space, as Unicode's `White_Space` property
/// has it.
pub open spec fn is_white_space(c: char) -> bool {
    let u = c as u32;
    ||| 0x9 <= u <= 0xD
    ||| u == 0x20
    ||| u == 0x85
    ||| u == 0xA0
    ||| u == 0x1680
    ||| 0x2000 <= u <= 0x200A
    ||| u == 0x2028
    ||| u == 0x2029
    ||| u == 0x202F
    ||| u == 0x205F
    ||| u == 0x3000
}

/// Whether `c` is white space.
pub fn white_space(c: char) -> (r: bool)
    ensures
        r == is_white_space(c),
{
    let u = c as u32;
    (0x9 <= u && u <= 0xD) || u == 0x20 || u == 0x85 || u == 0xA0 || u == 0x1680 || (0x2000 <= u
        && u <= 0x200A) || u == 0x2028 || u == 0x2029 || u == 0x202F || u == 0x205F || u == 0x3000
}

/// `s` without the white space it starts with.
pub open spec fn trim_start(s: Seq<char>) -> Seq<char>
    decreases s.len(),
{
    if s.len() > 0 && is_white_space(s[0]) {
        trim_start(s.drop_first())
    } else {
        s
    }
}

/// `s` without the white space it ends with.
pub open spec fn trim_end(s: Seq<char>) -> Seq<char>
    decreases s.len(),
{
    if s.len() > 0 && is_white_space(s.last()) {
        trim_end(s.drop_last())
    } else {
        s
    }
}

/// What a typed name is kept as: trimmed of white space at both ends,
/// and nothing at all when that leaves it blank.
pub open spec fn named_text(s: Seq<char>) -> Option<Seq<char>> {
    let t = trim_end(trim_start(s));
    if t.len() == 0 {
        None
    } else {
        Some(t)
    }
}

/// A typed name, trimmed; a blank one clears the name back to none
/// rather than keeping an empty one.
pub fn named(value: &str) -> (r: Option<String>)
    ensures
        name_view(r) == named_text(value@),
{
    let ghost s = value@;
    let n = value.unicode_len();
    let mut i: usize = 0;
    assert(s.subrange(0, n as int) =~= s);
    while i < n && white_space(value.get_char(i))
        invariant
            n == s.len(),
            s == value@,
            i <= n,
            trim_start(s) == trim_start(s.subrange(i as int, n as int)),
        decreases n - i,
    {
        assert(s.subrange(i as int, n as int).drop_first() =~= s.subrange(i + 1, n as int));
        i = i + 1;
    }
    assert(trim_start(s) == s.subrange(i as int, n as int));
    let mut j: usize = n;
    assert(s.subrange(i as int, n as int).subrange(0, (n - i) as int) =~= s.subrange(i as int, n as int));
    while j > i && white_space(value.get_char(j - 1))
        invariant
            n == s.len(),
            s == value@,
            i <= j <= n,
            trim_end(s.subrange(i as int, n as int)) == trim_end(s.subrange(i as int, j as int)),
        decreases j - i,
    {
        assert(s.subrange(i as int, j as int).drop_last() =~= s.subrange(i as int, j - 1));
        j = j - 1;
    }
    assert(trim_end(s.subrange(i as int, j as int)) == s.subrange(i as int, j as int));
    if i == j {
        None
    } else {
        Some(String::from_str(value.substring_char(i, j)))
    }
}

/// One property a panel input or an edge drag writes.
#[derive(Debug)]
pub enum Edit {
    /// An edge drag on the left edge: the node's delay, cleared when
    /// it comes to no time at all.
    Delay(Span),
    /// The panel's delay input: the node's delay, kept even at zero.
    SetDelay(Span),
    /// A leaf's duration.
    Duration(Span),
    /// A flow block's stagger: the block becomes a flow with it.
    Stagger(Span),
    /// Which of chain, overlap and flow a block is.
    Combinator(Combinator),
    /// The node's own name, block and leaf alike.
    Name(Option<String>),
    /// An action's easing curve, by index; none is linear.
    Ease(Option<u32>),
    /// An action's interpolation, by index; none is the default.
    Interp(Option<u32>),
}

/// A node's delay set to `delay`.
pub open spec fn with_delay(node: NodeV, delay: Option<Span>) -> NodeV {
    match node {
        NodeV::Action { action, .. } => NodeV::Action { delay, action },
        NodeV::Block { block, .. } => NodeV::Block { delay, block },
        NodeV::Draft { duration, name, .. } => NodeV::Draft { delay, duration, name },
    }
}

/// A block with `edit` applied: only its name, stagger and combinator
/// can change.
pub open spec fn edited_block(block: BlockV, edit: Edit) -> BlockV {
    match edit {
        Edit::Stagger(s) => BlockV { combinator: Combinator::Flow(s), ..block },
        Edit::Combinator(c) => BlockV { combinator: c, ..block },
        Edit::Name(n) => BlockV { name: name_view(n), ..block },
        _ => block,
    }
}

/// A node with `edit` applied to whichever of its fields it names;
/// unchanged where it has no such field.
pub open spec fn edited_node(node: NodeV, edit: Edit) -> NodeV {
    match edit {
        Edit::Delay(s) => with_delay(node, if s@ > 0 {
            Some(s)
        } else {
            None
        }),
        Edit::SetDelay(s) => with_delay(node, Some(s)),
        Edit::Duration(s) => match node {
            NodeV::Action { delay, action } => NodeV::Action {
                delay,
                action: crate::scene::ActionV { duration: s, ..action },
            },
            NodeV::Draft { delay, name, .. } => NodeV::Draft { delay, duration: s, name },
            NodeV::Block { .. } => node,
        },
        Edit::Name(n) => match node {
            NodeV::Action { delay, action } => NodeV::Action {
                delay,
                action: crate::scene::ActionV { name: name_view(n), ..action },
            },
            NodeV::Draft { delay, duration, .. } => NodeV::Draft { delay, duration, name: name_view(n) },
            NodeV::Block { delay, block } => NodeV::Block { delay, block: edited_block(block, edit) },
        },
        Edit::Ease(e) => match node {
            NodeV::Action { delay, action } => NodeV::Action {
                delay,
                action: crate::scene::ActionV { ease: e, ..action },
            },
            _ => node,
        },
        Edit::Interp(i) => match node {
            NodeV::Action { delay, action } => NodeV::Action {
                delay,
                action: crate::scene::ActionV { interp: i, ..action },
            },
            _ => node,
        },
        _ => match node {
            NodeV::Block { delay, block } => NodeV::Block { delay, block: edited_block(block, edit) },
            _ => node,
        },
    }
}

/// The tree with `edit` applied at `path`: the root for the empty
/// path, the node the path names otherwise; unchanged where the path
/// names nothing.
pub open spec fn edited_tree(root: BlockV, path: Seq<usize>, edit: Edit) -> BlockV {
    if path.len() == 0 {
        edited_block(root, edit)
    } else {
        match node_in(root, path) {
            Some(n) => with_node(root, path, edited_node(n, edit)),
            None => root,
        }
    }
}

/// The delay an edge drag leaves: none for no time at all.
pub open spec fn dragged_delay(s: Span) -> Option<Span> {
    if s@ > 0 {
        Some(s)
    } else {
        None
    }
}

/// An edit at an action's path writes exactly the property it names
/// and leaves the rest of the action alone: a delay drag or input its
/// delay, a duration its duration, a name its name, an ease its ease,
/// an interpolation its interpolation. Block-only edits leave it as it
/// was.
pub proof fn lemma_edit_action(
    root: BlockV,
    path: Seq<usize>,
    delay: Option<Span>,
    action: crate::scene::ActionV,
    edit: Edit,
)
    requires
        node_in(root, path) == Some(NodeV::Action { delay, action }),
    ensures
        node_in(edited_tree(root, path, edit), path) == Some(
            match edit {
                Edit::Delay(s) => NodeV::Action { delay: dragged_delay(s), action },
                Edit::SetDelay(s) => NodeV::Action { delay: Some(s), action },
                Edit::Duration(d) => NodeV::Action {
                    delay,
                    action: crate::scene::ActionV { duration: d, ..action },
                },
                Edit::Name(n) => NodeV::Action {
                    delay,
                    action: crate::scene::ActionV { name: name_view(n), ..action },
                },
                Edit::Ease(e) => NodeV::Action { delay, action: crate::scene::ActionV { ease: e, ..action } },
                Edit::Interp(i) => NodeV::Action {
                    delay,
                    action: crate::scene::ActionV { interp: i, ..action },
                },
                _ => NodeV::Action { delay, action },
            },
        ),
{
    crate::tree::lemma_with_node_in(root, path, edited_node(NodeV::Action { delay, action }, edit));
}

/// An edit at a draft's path writes its delay, duration or name, and
/// nothing else; the rest leave it as it was.
pub proof fn lemma_edit_draft(
    root: BlockV,
    path: Seq<usize>,
    delay: Option<Span>,
    duration: Span,
    name: Option<Seq<char>>,
    edit: Edit,
)
    requires
        node_in(root, path) == Some(NodeV::Draft { delay, duration, name }),
    ensures
        node_in(edited_tree(root, path, edit), path) == Some(
            match edit {
                Edit::Delay(s) => NodeV::Draft { delay: dragged_delay(s), duration, name },
                Edit::SetDelay(s) => NodeV::Draft { delay: Some(s), duration, name },
                Edit::Duration(d) => NodeV::Draft { delay, duration: d, name },
                Edit::Name(n) => NodeV::Draft { delay, duration, name: name_view(n) },
                _ => NodeV::Draft { delay, duration, name },
            },
        ),
{
    crate::tree::lemma_with_node_in(root, path, edited_node(NodeV::Draft { delay, duration, name }, edit));
}

/// An edit at a block's path writes its delay, name, stagger (making
/// it a flow) or combinator, and nothing else: its children stay.
pub proof fn lemma_edit_block(root: BlockV, path: Seq<usize>, delay: Option<Span>, block: BlockV, edit: Edit)
    requires
        node_in(root, path) == Some(NodeV::Block { delay, block }),
    ensures
        node_in(edited_tree(root, path, edit), path) == Some(
            match edit {
                Edit::Delay(s) => NodeV::Block { delay: dragged_delay(s), block },
                Edit::SetDelay(s) => NodeV::Block { delay: Some(s), block },
                Edit::Name(n) => NodeV::Block { delay, block: BlockV { name: name_view(n), ..block } },
                Edit::Stagger(s) => NodeV::Block {
                    delay,
                    block: BlockV { combinator: Combinator::Flow(s), ..block },
                },
                Edit::Combinator(c) => NodeV::Block { delay, block: BlockV { combinator: c, ..block } },
                _ => NodeV::Block { delay, block },
            },
        ),
{
    crate::tree::lemma_with_node_in(root, path, edited_node(NodeV::Block { delay, block }, edit));
}

/// An edit of the tree's own root writes its name, stagger (making it
/// a flow) or combinator, and nothing else: the root has no delay.
pub proof fn lemma_edit_root(root: BlockV, edit: Edit)
    ensures
        edited_tree(root, Seq::empty(), edit) == match edit {
            Edit::Name(n) => BlockV { name: name_view(n), ..root },
            Edit::Stagger(s) => BlockV { combinator: Combinator::Flow(s), ..root },
            Edit::Combinator(c) => BlockV { combinator: c, ..root },
            _ => root,
        },
{
}

/// Applies `edit` to a block.
fn edit_block(block: &mut Block, edit: Edit)
    ensures
        final(block)@ == edited_block(old(block)@, edit),
{
    match edit {
        Edit::Stagger(s) => {
            block.combinator = Combinator::Flow(s);
        },
        Edit::Combinator(c) => {
            block.combinator = c;
        },
        Edit::Name(n) => {
            block.name = n;
        },
        _ => {},
    }
}

/// `node`'s own delay set to `delay`.
fn set_delay(node: &mut Node, delay: Option<Span>)
    ensures
        final(node)@ == with_delay(old(node)@, delay),
{
    match node {
        Node::Action { delay: d, .. } => {
            *d = delay;
        },
        Node::Block { delay: d, .. } => {
            *d = delay;
        },
        Node::Draft { delay: d, .. } => {
            *d = delay;
        },
    }
}

/// Applies `edit` to whichever of `node`'s fields it names.
pub fn edit_node(node: &mut Node, edit: Edit)
    ensures
        final(node)@ == edited_node(old(node)@, edit),
{
    let ghost e = edit;
    match edit {
        Edit::Delay(s) => {
            let d = if s.is_zero() {
                None
            } else {
                Some(s)
            };
            set_delay(node, d);
        },
        Edit::SetDelay(s) => {
            set_delay(node, Some(s));
        },
        Edit::Duration(s) => match node {
            Node::Action { action, .. } => {
                action.duration = s;
            },
            Node::Draft { duration, .. } => {
                *duration = s;
            },
            Node::Block { .. } => {},
        },
        Edit::Name(n) => match node {
            Node::Action { action, .. } => {
                action.name = n;
            },
            Node::Draft { name, .. } => {
                *name = n;
            },
            Node::Block { block, .. } => {
                edit_block(block, Edit::Name(n));
            },
        },
        Edit::Ease(x) => match node {
            Node::Action { action, .. } => {
                action.ease = x;
            },
            _ => {},
        },
        Edit::Interp(x) => match node {
            Node::Action { action, .. } => {
                action.interp = x;
            },
            _ => {},
        },
        other => match node {
            Node::Block { block, .. } => {
                edit_block(block, other);
            },
            _ => {},
        },
    }
}

/// Applies `edit` at `path`: to the root for an empty path, to the
/// node it names otherwise. Whether the path named anything.
pub fn edit_at(root: &mut Block, path: &[usize], edit: Edit) -> (r: bool)
    ensures
        r == (path@.len() == 0 || node_in(old(root)@, path@) is Some),
        final(root)@ == edited_tree(old(root)@, path@, edit),
{
    if path.len() == 0 {
        edit_block(root, edit);
        return true;
    }
    let ghost before = root@;
    let stand_in = Node::Draft { delay: None, duration: Span::zero(), name: None };
    match replace_node(root, path, stand_in) {
        None => false,
        Some(mut node) => {
            let ghost placed = root@;
            edit_node(&mut node, edit);
            let ghost new_v = node@;
            let back = replace_node(root, path, node);
            proof {
                lemma_with_node_twice(before, path@, stand_in@, new_v);
            }
            true
        },
    }
}

} // verus!
