//! What the entity inspector asks of the scene: which field a row
//! names, and whether an action already drives it.

use vstd::prelude::*;
use vstd::string::*;

use crate::scene::{Block, BlockV, FieldRef, Node, NodeV, lemma_block_view, lemma_nodes_view};

verus! {

broadcast use {lemma_nodes_view, lemma_block_view};

/// Whether `node` is, or holds, an action for `subject`'s `field`.
pub open spec fn node_drives(node: NodeV, subject: u128, field: (Seq<char>, Seq<char>)) -> bool
    decreases node, 0int,
{
    match node {
        NodeV::Block { block, .. } => block_drives_field(block, subject, field),
        NodeV::Action { action, .. } => action.subject == subject && action.field == field,
        NodeV::Draft { .. } => false,
    }
}

/// Whether `block`, or a block nested under it, holds an action for
/// `subject`'s `field`.
pub open spec fn block_drives_field(block: BlockV, subject: u128, field: (Seq<char>, Seq<char>)) -> bool
    decreases block, 0int,
{
    nodes_drive(block.children, subject, field, block.children.len() as int)
}

/// Whether any of the first `k` of `nodes` is, or holds, an action for
/// `subject`'s `field`.
pub open spec fn nodes_drive(nodes: Seq<NodeV>, subject: u128, field: (Seq<char>, Seq<char>), k: int) -> bool
    decreases nodes, k,
{
    if k <= 0 || k > nodes.len() {
        false
    } else {
        nodes_drive(nodes, subject, field, k - 1) || node_drives(nodes[k - 1], subject, field)
    }
}

/// What the first `k` nodes drive, more of them drive too.
proof fn lemma_drive_grows(nodes: Seq<NodeV>, subject: u128, field: (Seq<char>, Seq<char>), k: int, m: int)
    requires
        0 <= k <= m <= nodes.len(),
        nodes_drive(nodes, subject, field, k),
    ensures
        nodes_drive(nodes, subject, field, m),
    decreases m - k,
{
    if k < m {
        lemma_drive_grows(nodes, subject, field, k, m - 1);
    }
}

/// Some of the first `k` nodes drive the field exactly when one of
/// them does.
proof fn lemma_drive_some(nodes: Seq<NodeV>, subject: u128, field: (Seq<char>, Seq<char>), k: int)
    requires
        0 <= k <= nodes.len(),
    ensures
        nodes_drive(nodes, subject, field, k) <==> exists|i: int|
            0 <= i < k && node_drives(#[trigger] nodes[i], subject, field),
    decreases k,
{
    if k > 0 {
        lemma_drive_some(nodes, subject, field, k - 1);
        if nodes_drive(nodes, subject, field, k) && !node_drives(nodes[k - 1], subject, field) {
            let i = choose|i: int| 0 <= i < k - 1 && node_drives(#[trigger] nodes[i], subject, field);
            assert(0 <= i < k && node_drives(nodes[i], subject, field));
        }
        if exists|i: int| 0 <= i < k && node_drives(#[trigger] nodes[i], subject, field) {
            let i = choose|i: int| 0 <= i < k && node_drives(#[trigger] nodes[i], subject, field);
            if i < k - 1 {
                assert(exists|j: int| 0 <= j < k - 1 && node_drives(#[trigger] nodes[j], subject, field));
            }
        }
    }
}

/// A block drives a field exactly when one of its children is an
/// action on that subject's field, or is a block that drives it in
/// turn; drafts drive nothing.
pub proof fn lemma_drives_when_a_child_does(block: BlockV, subject: u128, field: (Seq<char>, Seq<char>))
    ensures
        block_drives_field(block, subject, field) <==> exists|i: int|
            0 <= i < block.children.len() && match #[trigger] block.children[i] {
                NodeV::Action { action, .. } => action.subject == subject && action.field == field,
                NodeV::Block { block: inner, .. } => block_drives_field(inner, subject, field),
                NodeV::Draft { .. } => false,
            },
{
    lemma_drive_some(block.children, subject, field, block.children.len() as int);
    if block_drives_field(block, subject, field) {
        let i = choose|i: int|
            0 <= i < block.children.len() && node_drives(#[trigger] block.children[i], subject, field);
        assert(match block.children[i] {
            NodeV::Action { action, .. } => action.subject == subject && action.field == field,
            NodeV::Block { block: inner, .. } => block_drives_field(inner, subject, field),
            NodeV::Draft { .. } => false,
        });
    }
    if exists|i: int|
        0 <= i < block.children.len() && match #[trigger] block.children[i] {
            NodeV::Action { action, .. } => action.subject == subject && action.field == field,
            NodeV::Block { block: inner, .. } => block_drives_field(inner, subject, field),
            NodeV::Draft { .. } => false,
        } {
        let i = choose|i: int|
            0 <= i < block.children.len() && match #[trigger] block.children[i] {
                NodeV::Action { action, .. } => action.subject == subject && action.field == field,
                NodeV::Block { block: inner, .. } => block_drives_field(inner, subject, field),
                NodeV::Draft { .. } => false,
            };
        assert(node_drives(block.children[i], subject, field));
    }
}

/// Whether `block`, or a block nested under it, holds an action for
/// `subject`'s `field`: what marks the field's row in the inspector as
/// animated already.
pub fn block_drives(block: &Block, subject: u128, field: &FieldRef) -> (r: bool)
    ensures
        r == block_drives_field(block@, subject, field@),
    decreases block@,
{
    let ghost bv = block@;
    let mut k: usize = 0;
    while k < block.children.len()
        invariant
            k <= block.children@.len(),
            bv == block@,
            !nodes_drive(bv.children, subject, field@, k as int),
        decreases block.children@.len() - k,
    {
        assert(decreases_to!(bv => bv.children[k as int]));
        let hit = match &block.children[k] {
            Node::Block { block: inner, delay } => {
                assert(bv.children[k as int] == NodeV::Block { delay: *delay, block: inner@ });
                block_drives(inner, subject, field)
            },
            Node::Action { action, .. } => action.subject == subject && action.field.same(field),
            Node::Draft { .. } => false,
        };
        assert(hit == node_drives(bv.children[k as int], subject, field@));
        if hit {
            assert(nodes_drive(bv.children, subject, field@, k + 1));
            proof {
                lemma_drive_grows(bv.children, subject, field@, k + 1, bv.children.len() as int);
            }
            return true;
        }
        k = k + 1;
    }
    false
}

/// `s` with each `.` written as `::`.
pub open spec fn dots_as_colons(s: Seq<char>) -> Seq<char>
    decreases s.len(),
{
    if s.len() == 0 {
        Seq::empty()
    } else {
        dots_as_colons(s.drop_last()) + if s.last() == '.' {
            seq![':', ':']
        } else {
            seq![s.last()]
        }
    }
}

/// The field a reflect path inside a component of `type_path` names:
/// the path rewritten to the scene's `::`-separated form. `None` for
/// the component itself, whose path is empty.
pub open spec fn field_of(type_path: Seq<char>, reflect_path: Seq<char>) -> Option<(Seq<char>, Seq<char>)> {
    if reflect_path.len() == 0 {
        None
    } else {
        Some((type_path, seq![':', ':'] + dots_as_colons(reflect_path)))
    }
}

/// The scene field an inspector row names: its component's type path,
/// and its reflect path in the scene's `::`-separated form. `None`
/// for the component root.
pub fn field_ref_of(type_path: &str, reflect_path: &str) -> (r: Option<FieldRef>)
    ensures
        match r {
            Some(f) => field_of(type_path@, reflect_path@) == Some(f@),
            None => field_of(type_path@, reflect_path@) is None,
        },
{
    let ghost s = reflect_path@;
    let n = reflect_path.unicode_len();
    if n == 0 {
        return None;
    }
    proof {
        reveal_strlit("::");
    }
    let mut out = String::from_str("::");
    let mut i: usize = 0;
    assert(s.take(0) =~= Seq::<char>::empty());
    while i < n
        invariant
            i <= n,
            n == s.len(),
            s == reflect_path@,
            "::"@ == seq![':', ':'],
            out@ == seq![':', ':'] + dots_as_colons(s.take(i as int)),
        decreases n - i,
    {
        let c = reflect_path.get_char(i);
        assert(s.take(i + 1).drop_last() =~= s.take(i as int));
        assert(s.take(i + 1).last() == c);
        if c == '.' {
            out.append("::");
        } else {
            let one = reflect_path.substring_char(i, i + 1);
            assert(one@ =~= seq![c]);
            out.append(one);
        }
        assert(out@ =~= seq![':', ':'] + dots_as_colons(s.take(i + 1)));
        i = i + 1;
    }
    assert(s.take(n as int) =~= s);
    Some(FieldRef { component: String::from_str(type_path), path: out })
}

} // verus!
