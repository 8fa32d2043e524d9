//! What the action panel shows for the node the timeline selected, and
//! which of its properties it lets be changed.

use vstd::prelude::*;
use vstd::string::*;

use crate::edit::{Edit, edit_at, edited_tree};
use crate::scene::{Block, BlockV, Combinator, FieldRef, Node, NodeV};
use crate::span::Span;
use crate::tree::{node_at, node_in};

verus! {

/// One property of the selected node that an input writes back.
#[derive(Clone, Copy, Debug, PartialEq, Eq, Structural)]
pub enum Property {
    /// How long the action runs for.
    Duration,
    /// The node's own offset from where its parent starts it.
    Delay,
    /// How far apart a flow block staggers its children.
    Stagger,
    /// The curve the action follows.
    Ease,
    /// How its values are blended.
    Interp,
    /// The node's own name, block or action alike.
    Name,
}

/// What kind of node the panel shows.
#[derive(Clone, Copy, Debug, PartialEq, Eq, Structural)]
pub enum Kind {
    Action,
    Block,
    Draft,
}

/// What the panel shows for a node: its kind, what it is made of, and
/// the properties it can change, in the order their rows go.
pub struct Summary {
    pub kind: Kind,
    /// A block's combinator, for its Type picker.
    pub combinator: Option<Combinator>,
    /// An action's subject, by its scene id.
    pub subject: Option<u128>,
    /// The field an action drives.
    pub field: Option<FieldRef>,
    /// An action's operation, by index.
    pub op: Option<u32>,
    /// An action's target value, by its id in the value pool.
    pub value: Option<u128>,
    pub edits: Vec<Property>,
}

/// What the panel shows, as plain values.
pub struct SummaryV {
    pub kind: Kind,
    pub combinator: Option<Combinator>,
    pub subject: Option<u128>,
    pub field: Option<(Seq<char>, Seq<char>)>,
    pub op: Option<u32>,
    pub value: Option<u128>,
    pub edits: Seq<Property>,
}

impl View for Summary {
    type V = SummaryV;

    open spec fn view(&self) -> SummaryV {
        SummaryV {
            kind: self.kind,
            combinator: self.combinator,
            subject: self.subject,
            field: match self.field {
                Some(f) => Some(f@),
                None => None,
            },
            op: self.op,
            value: self.value,
            edits: self.edits@,
        }
    }
}

/// `p`, then `rest` only when `also` holds.
pub open spec fn then_if(p: Seq<Property>, also: bool, rest: Seq<Property>) -> Seq<Property> {
    if also {
        p + rest
    } else {
        p
    }
}

/// A block's summary: its combinator, its stagger when it is a flow,
/// and its delay when the node wrapping it has one.
pub open spec fn block_summary(block: BlockV, delay: Option<Span>) -> SummaryV {
    SummaryV {
        kind: Kind::Block,
        combinator: Some(block.combinator),
        subject: None,
        field: None,
        op: None,
        value: None,
        edits: then_if(
            then_if(Seq::empty(), block.combinator is Flow, seq![Property::Stagger]),
            delay is Some,
            seq![Property::Delay],
        ),
    }
}

/// The summary of the node `path` names, or of the root for an empty
/// path; `None` where the path no longer lands on a node.
pub open spec fn summary_of(root: BlockV, path: Seq<usize>) -> Option<SummaryV> {
    if path.len() == 0 {
        Some(block_summary(root, None))
    } else {
        match node_in(root, path) {
            Some(NodeV::Block { delay, block }) => Some(block_summary(block, delay)),
            Some(NodeV::Action { delay, action }) => Some(
                SummaryV {
                    kind: Kind::Action,
                    combinator: None,
                    subject: Some(action.subject),
                    field: Some(action.field),
                    op: Some(action.op),
                    value: Some(action.value),
                    edits: then_if(seq![Property::Duration], delay is Some, seq![Property::Delay])
                        + seq![Property::Ease, Property::Interp],
                },
            ),
            Some(NodeV::Draft { delay, .. }) => Some(
                SummaryV {
                    kind: Kind::Draft,
                    combinator: None,
                    subject: None,
                    field: None,
                    op: None,
                    value: None,
                    edits: then_if(seq![Property::Duration], delay is Some, seq![Property::Delay]),
                },
            ),
            None => None,
        }
    }
}

/// The panel offers the rows each kind of node has, in order, and a
/// Delay row exactly for a node that has a delay: an action Duration,
/// Delay when delayed, Ease, Interpolation; a draft Duration, Delay
/// when delayed; a block Stagger when it is a flow, Delay when
/// delayed. The tree's own root has no delay, so never a Delay row.
pub proof fn lemma_panel_rows(root: BlockV, path: Seq<usize>)
    ensures
        path.len() == 0 ==> summary_of(root, path) == Some(block_summary(root, None)),
        path.len() == 0 ==> !summary_of(root, path).unwrap().edits.contains(Property::Delay),
        path.len() == 0 ==> (summary_of(root, path).unwrap().edits == if root.combinator is Flow {
            seq![Property::Stagger]
        } else {
            Seq::<Property>::empty()
        }),
        path.len() > 0 ==> (summary_of(root, path) is Some <==> node_in(root, path) is Some),
        match node_in(root, path) {
            Some(NodeV::Action { delay, action }) => {
                &&& summary_of(root, path).unwrap().kind == Kind::Action
                &&& summary_of(root, path).unwrap().edits == if delay is Some {
                    seq![Property::Duration, Property::Delay, Property::Ease, Property::Interp]
                } else {
                    seq![Property::Duration, Property::Ease, Property::Interp]
                }
                &&& summary_of(root, path).unwrap().subject == Some(action.subject)
                &&& summary_of(root, path).unwrap().field == Some(action.field)
                &&& summary_of(root, path).unwrap().op == Some(action.op)
                &&& summary_of(root, path).unwrap().value == Some(action.value)
            },
            Some(NodeV::Draft { delay, .. }) => {
                &&& summary_of(root, path).unwrap().kind == Kind::Draft
                &&& summary_of(root, path).unwrap().edits == if delay is Some {
                    seq![Property::Duration, Property::Delay]
                } else {
                    seq![Property::Duration]
                }
            },
            Some(NodeV::Block { delay, block }) => {
                &&& summary_of(root, path).unwrap().kind == Kind::Block
                &&& summary_of(root, path).unwrap().combinator == Some(block.combinator)
                &&& summary_of(root, path).unwrap().edits.contains(Property::Delay) <==> delay is Some
                &&& summary_of(root, path).unwrap().edits.contains(Property::Stagger) <==> block.combinator is Flow
                &&& summary_of(root, path).unwrap().edits.len() == (if delay is Some { 1int } else { 0int }) + (
                if block.combinator is Flow {
                    1int
                } else {
                    0int
                })
            },
            None => true,
        },
{
    if path.len() == 0 {
        assert(node_in(root, path) is None);
        let e = summary_of(root, path).unwrap().edits;
        if root.combinator is Flow {
            assert(e =~= seq![Property::Stagger]);
            assert(e[0] != Property::Delay);
        } else {
            assert(e =~= Seq::<Property>::empty());
        }
    } else {
        match node_in(root, path) {
            Some(NodeV::Action { delay, action }) => {
                let e = summary_of(root, path).unwrap().edits;
                if delay is Some {
                    assert(e =~= seq![Property::Duration, Property::Delay, Property::Ease, Property::Interp]);
                } else {
                    assert(e =~= seq![Property::Duration, Property::Ease, Property::Interp]);
                }
            },
            Some(NodeV::Draft { delay, .. }) => {
                let e = summary_of(root, path).unwrap().edits;
                if delay is Some {
                    assert(e =~= seq![Property::Duration, Property::Delay]);
                } else {
                    assert(e =~= seq![Property::Duration]);
                }
            },
            Some(NodeV::Block { delay, block }) => {
                let e = summary_of(root, path).unwrap().edits;
                let flow = block.combinator is Flow;
                if flow && delay is Some {
                    assert(e =~= seq![Property::Stagger, Property::Delay]);
                    assert(e[1] == Property::Delay);
                    assert(e[0] == Property::Stagger);
                } else if flow {
                    assert(e =~= seq![Property::Stagger]);
                    assert(e[0] == Property::Stagger);
                } else if delay is Some {
                    assert(e =~= seq![Property::Delay]);
                    assert(e[0] == Property::Delay);
                } else {
                    assert(e =~= Seq::<Property>::empty());
                }
            },
            None => {},
        }
    }
}

/// A block's summary.
fn summarize_block(block: &Block, delay: Option<Span>) -> (r: Summary)
    ensures
        r@ == block_summary(block@, delay),
{
    let mut edits: Vec<Property> = Vec::new();
    let flow = match block.combinator {
        Combinator::Flow(_) => true,
        _ => false,
    };
    if flow {
        edits.push(Property::Stagger);
    }
    if delay.is_some() {
        edits.push(Property::Delay);
    }
    assert(edits@ =~= block_summary(block@, delay).edits);
    Summary {
        kind: Kind::Block,
        combinator: Some(block.combinator),
        subject: None,
        field: None,
        op: None,
        value: None,
        edits,
    }
}

/// The selected node, as what to show and what can be changed. An
/// empty `path` names the tree's own root, which no node wraps, so it
/// has no delay to show or change.
pub fn summarize(root: &Block, path: &[usize]) -> (r: Option<Summary>)
    ensures
        match r {
            Some(s) => summary_of(root@, path@) == Some(s@),
            None => summary_of(root@, path@) is None,
        },
{
    if path.len() == 0 {
        return Some(summarize_block(root, None));
    }
    let node = node_at(root, path)?;
    match node {
        Node::Block { block, delay } => Some(summarize_block(block, *delay)),
        Node::Action { action, delay } => {
            let mut edits: Vec<Property> = Vec::new();
            edits.push(Property::Duration);
            if delay.is_some() {
                edits.push(Property::Delay);
            }
            edits.push(Property::Ease);
            edits.push(Property::Interp);
            proof {
                let sv = summary_of(root@, path@).unwrap();
                assert(edits@ =~= sv.edits);
            }
            Some(
                Summary {
                    kind: Kind::Action,
                    combinator: None,
                    subject: Some(action.subject),
                    field: Some(action.field.copy()),
                    op: Some(action.op),
                    value: Some(action.value),
                    edits,
                },
            )
        },
        Node::Draft { delay, .. } => {
            let mut edits: Vec<Property> = Vec::new();
            edits.push(Property::Duration);
            if delay.is_some() {
                edits.push(Property::Delay);
            }
            proof {
                let sv = summary_of(root@, path@).unwrap();
                assert(edits@ =~= sv.edits);
            }
            Some(
                Summary {
                    kind: Kind::Draft,
                    combinator: None,
                    subject: None,
                    field: None,
                    op: None,
                    value: None,
                    edits,
                },
            )
        },
    }
}

/// A property's row label.
pub fn property_label(property: Property) -> (r: &'static str)
    ensures
        r@ == match property {
            Property::Duration => "Duration"@,
            Property::Delay => "Delay"@,
            Property::Stagger => "Stagger"@,
            Property::Ease => "Ease"@,
            Property::Interp => "Interpolation"@,
            Property::Name => "Name"@,
        },
{
    match property {
        Property::Duration => "Duration",
        Property::Delay => "Delay",
        Property::Stagger => "Stagger",
        Property::Ease => "Ease",
        Property::Interp => "Interpolation",
        Property::Name => "Name",
    }
}

/// A combinator's name on the Type picker; a flow's stagger has its
/// own row, so this only names it.
pub fn combinator_name(combinator: &Combinator) -> (r: &'static str)
    ensures
        r@ == match combinator {
            Combinator::Chain => "Chain"@,
            Combinator::All => "All"@,
            Combinator::Flow(_) => "Flow"@,
        },
{
    match combinator {
        Combinator::Chain => "Chain",
        Combinator::All => "All",
        Combinator::Flow(_) => "Flow",
    }
}

/// Which of the Type picker's options a combinator is: chain, overlap,
/// flow.
pub fn combinator_index(combinator: &Combinator) -> (r: usize)
    ensures
        r == match combinator {
            Combinator::Chain => 0usize,
            Combinator::All => 1usize,
            Combinator::Flow(_) => 2usize,
        },
{
    match combinator {
        Combinator::Chain => 0,
        Combinator::All => 1,
        Combinator::Flow(_) => 2,
    }
}

/// The stagger a block switched to a flow starts with: 0.15 s as an
/// `f32`, to the nearest nanosecond, which is 150 ms and 6 ns.
pub open spec fn default_stagger() -> nat {
    150_000_006
}

/// The combinator the Type picker's `index`th option names: a flow
/// starts with the default stagger.
pub fn picked_combinator(index: usize) -> (r: Combinator)
    ensures
        index == 0 ==> r == Combinator::Chain,
        index == 1 ==> r == Combinator::All,
        index >= 2 ==> (r matches Combinator::Flow(s) && s@ == default_stagger()),
{
    if index == 0 {
        Combinator::Chain
    } else if index == 1 {
        Combinator::All
    } else {
        Combinator::Flow(Span::from_parts(0, 150_000_006))
    }
}

/// Switches the block at `path` (the tree's own root, if empty) onto
/// the combinator the Type picker's `index` names. Switching into a
/// flow seeds the default stagger; switching out of one drops whatever
/// stagger it had. Anything but a block at `path` is left alone.
pub fn set_combinator(root: &mut Block, path: &[usize], index: usize)
    ensures
        exists|c: Combinator|
            (index == 0 ==> c == Combinator::Chain) && (index == 1 ==> c == Combinator::All) && (
            index >= 2 ==> (c matches Combinator::Flow(s) && s@ == default_stagger())) && final(root)@
                == edited_tree(old(root)@, path@, Edit::Combinator(c)),
{
    let c = picked_combinator(index);
    edit_at(root, path, Edit::Combinator(c));
}

/// Whether `s` holds `::` starting at `k`.
pub open spec fn colons_at(s: Seq<char>, k: int) -> bool {
    0 <= k && k + 1 < s.len() && s[k] == ':' && s[k + 1] == ':'
}

/// What follows the last `::` in a type path: its own name. The whole
/// path when it has none.
pub open spec fn last_segment(s: Seq<char>) -> Seq<char> {
    if exists|k: int| colons_at(s, k) {
        let k = choose|k: int| colons_at(s, k) && forall|j: int| colons_at(s, j) ==> j <= k;
        s.skip(k + 2)
    } else {
        s
    }
}

/// What follows the last `::` in a type path.
pub fn short_type_name(type_path: &str) -> (r: String)
    ensures
        r@ == last_segment(type_path@),
{
    let ghost s = type_path@;
    let n = type_path.unicode_len();
    let mut k: usize = n;
    while k >= 2
        invariant
            n == s.len(),
            s == type_path@,
            k <= n,
            forall|j: int| k - 1 <= j && colons_at(s, j) ==> false,
        decreases k,
    {
        if type_path.get_char(k - 2) == ':' && type_path.get_char(k - 1) == ':' {
            let start = k;
            assert(colons_at(s, (k - 2) as int));
            assert forall|j: int| colons_at(s, j) implies j <= k - 2 by {
                if j > k - 2 {
                    assert(k - 1 <= j);
                }
            }
            let piece = type_path.substring_char(start, n);
            assert(s.subrange(start as int, n as int) =~= s.skip(start as int));
            proof {
                let c = choose|c: int| colons_at(s, c) && forall|j: int| colons_at(s, j) ==> j <= c;
                assert(c <= k - 2 && k - 2 <= c);
            }
            return String::from_str(piece);
        }
        k = k - 1;
    }
    assert(forall|j: int| !colons_at(s, j));
    assert(s.subrange(0, n as int) =~= s);
    String::from_str(type_path.substring_char(0, n))
}

/// The label of the field an action drives: its component's display
/// name, or the type's own name when the registry has none for it,
/// followed by the path to the field.
pub open spec fn field_label_text(type_path: Seq<char>, display: Option<Seq<char>>, path: Seq<char>) -> Seq<char> {
    match display {
        Some(d) => d + path,
        None => last_segment(type_path) + path,
    }
}

/// The label of the field an action drives, such as
/// `Transform::position::x`.
pub fn field_label(type_path: &str, display: Option<String>, path: &str) -> (r: String)
    ensures
        r@ == field_label_text(type_path@, crate::scene::name_view(display), path@),
{
    let mut label = match display {
        Some(d) => d,
        None => short_type_name(type_path),
    };
    label.append(path);
    label
}

} // verus!
