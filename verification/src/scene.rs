//! The animation a scene holds: a tree of blocks whose leaves are
//! actions (or drafts, slots not yet given one), and the stage that
//! seeds the fields those actions drive.

use vstd::prelude::*;

use crate::span::Span;

verus! {

/// How a block runs its children.
#[derive(Clone, Copy, Debug, PartialEq, Eq, Structural)]
pub enum Combinator {
    /// One after another.
    Chain,
    /// All at once.
    All,
    /// Each one starting this long after the one before it.
    Flow(Span),
}

/// A field of a subject's component: the component's type name and
/// the path to the field inside it.
#[derive(Debug)]
pub struct FieldRef {
    pub component: String,
    pub path: String,
}

impl View for FieldRef {
    type V = (Seq<char>, Seq<char>);

    open spec fn view(&self) -> (Seq<char>, Seq<char>) {
        (self.component@, self.path@)
    }
}

impl FieldRef {
    /// The field at `path` inside the component named `component`.
    pub fn new(component: &str, path: &str) -> (r: FieldRef)
        ensures
            r@ == (component@, path@),
    {
        FieldRef { component: component.to_owned(), path: path.to_owned() }
    }

    /// Whether both name the same field.
    pub fn same(&self, other: &FieldRef) -> (r: bool)
        ensures
            r == (self@ == other@),
    {
        self.component == other.component && self.path == other.path
    }

    /// A copy naming the same field.
    pub fn copy(&self) -> (r: FieldRef)
        ensures
            r@ == self@,
    {
        FieldRef { component: self.component.clone(), path: self.path.clone() }
    }
}

/// One animation step: drive `field` of `subject` to `value` with
/// `op`, over `duration`.
#[derive(Debug)]
pub struct ActionCmd {
    /// The subject's scene id.
    pub subject: u128,
    pub field: FieldRef,
    /// The backend's operation, by its index.
    pub op: u32,
    /// The target value's id in the value pool.
    pub value: u128,
    pub duration: Span,
    /// The backend's easing curve, by its index; `None` is linear.
    pub ease: Option<u32>,
    /// The backend's interpolation, by its index; `None` is the
    /// default.
    pub interp: Option<u32>,
    pub name: Option<String>,
}

/// One child of a block. Every kind carries its own `delay`: how long
/// after its parent starts it, it starts.
#[derive(Debug)]
pub enum Node {
    Action { delay: Option<Span>, action: ActionCmd },
    Block { delay: Option<Span>, block: Block },
    /// A slot with timing but nothing to animate yet.
    Draft { delay: Option<Span>, duration: Span, name: Option<String> },
}

/// A group of nodes run under one combinator.
#[derive(Debug)]
pub struct Block {
    pub combinator: Combinator,
    pub children: Vec<Node>,
    pub name: Option<String>,
}

/// An optional name, as characters.
pub open spec fn name_view(name: Option<String>) -> Option<Seq<char>> {
    match name {
        Some(n) => Some(n@),
        None => None,
    }
}

/// What an action is, as plain values.
#[verifier::ext_equal]
pub struct ActionV {
    pub subject: u128,
    pub field: (Seq<char>, Seq<char>),
    pub op: u32,
    pub value: u128,
    pub duration: Span,
    pub ease: Option<u32>,
    pub interp: Option<u32>,
    pub name: Option<Seq<char>>,
}

/// What a node is, as plain values.
#[verifier::ext_equal]
pub enum NodeV {
    Action { delay: Option<Span>, action: ActionV },
    Block { delay: Option<Span>, block: BlockV },
    Draft { delay: Option<Span>, duration: Span, name: Option<Seq<char>> },
}

/// What a block is, as plain values.
#[verifier::ext_equal]
pub struct BlockV {
    pub combinator: Combinator,
    pub children: Seq<NodeV>,
    pub name: Option<Seq<char>>,
}

impl View for ActionCmd {
    type V = ActionV;

    open spec fn view(&self) -> ActionV {
        ActionV {
            subject: self.subject,
            field: self.field@,
            op: self.op,
            value: self.value,
            duration: self.duration,
            ease: self.ease,
            interp: self.interp,
            name: name_view(self.name),
        }
    }
}

/// A node as plain values.
pub open spec fn node_view(node: Node) -> NodeV
    decreases node,
{
    match node {
        Node::Action { delay, action } => NodeV::Action { delay, action: action@ },
        Node::Block { delay, block } => NodeV::Block { delay, block: block_view(block) },
        Node::Draft { delay, duration, name } => NodeV::Draft {
            delay,
            duration,
            name: name_view(name),
        },
    }
}

/// A block as plain values.
pub open spec fn block_view(block: Block) -> BlockV
    decreases block,
{
    BlockV {
        combinator: block.combinator,
        children: nodes_view(block.children@),
        name: name_view(block.name),
    }
}

/// A run of nodes as plain values.
pub open spec fn nodes_view(nodes: Seq<Node>) -> Seq<NodeV>
    decreases nodes,
{
    if nodes.len() == 0 {
        Seq::empty()
    } else {
        nodes_view(nodes.drop_last()).push(node_view(nodes.last()))
    }
}

impl View for Node {
    type V = NodeV;

    open spec fn view(&self) -> NodeV {
        node_view(*self)
    }
}

impl View for Block {
    type V = BlockV;

    open spec fn view(&self) -> BlockV {
        block_view(*self)
    }
}

/// A run of nodes' view holds each node's view, in order.
pub broadcast proof fn lemma_nodes_view(nodes: Seq<Node>)
    ensures
        #[trigger] nodes_view(nodes).len() == nodes.len(),
        forall|i: int|
            0 <= i < nodes.len() ==> #[trigger] nodes_view(nodes)[i] == node_view(nodes[i]),
    decreases nodes.len(),
{
    if nodes.len() > 0 {
        lemma_nodes_view(nodes.drop_last());
    }
}

/// A block's view holds its own combinator and name, and each
/// child's view, in order.
pub broadcast proof fn lemma_block_view(block: Block)
    ensures
        #![trigger block_view(block)]
        block_view(block).combinator == block.combinator,
        block_view(block).name == name_view(block.name),
        block_view(block).children.len() == block.children@.len(),
        forall|i: int|
            0 <= i < block.children@.len() ==> #[trigger] block_view(block).children[i]
                == node_view(block.children@[i]),
{
    lemma_nodes_view(block.children@);
}

/// Two runs of nodes whose views match node for node have the same
/// view.
pub proof fn lemma_nodes_view_ext(a: Seq<Node>, b: Seq<NodeV>)
    requires
        a.len() == b.len(),
        forall|i: int| 0 <= i < a.len() ==> node_view(#[trigger] a[i]) == b[i],
    ensures
        nodes_view(a) == b,
{
    lemma_nodes_view(a);
    assert(nodes_view(a) =~= b);
}

/// A node's own delay, whatever kind it is.
pub open spec fn delay_of(node: NodeV) -> Option<Span> {
    match node {
        NodeV::Action { delay, .. } => delay,
        NodeV::Block { delay, .. } => delay,
        NodeV::Draft { delay, .. } => delay,
    }
}

/// A field a subject is staged with, and the value it starts at.
#[derive(Debug)]
pub struct FieldSeed {
    pub field: FieldRef,
    /// The starting value's id in the value pool.
    pub value: u128,
}

/// A subject of the scene, with the fields it is staged with.
#[derive(Debug)]
pub struct Subject {
    /// The subject's scene id.
    pub id: u128,
    pub fields: Vec<FieldSeed>,
}

/// Where every animated field starts, before any action runs.
#[derive(Debug)]
pub struct Stage {
    pub subjects: Vec<Subject>,
}

/// A scene: its stage, and the animation over it.
#[derive(Debug)]
pub struct Scene {
    pub stage: Stage,
    pub animation: Block,
}

/// A field seed as plain values.
pub struct FieldSeedV {
    pub field: (Seq<char>, Seq<char>),
    pub value: u128,
}

/// A subject as plain values.
#[verifier::ext_equal]
pub struct SubjectV {
    pub id: u128,
    pub fields: Seq<FieldSeedV>,
}

impl View for FieldSeed {
    type V = FieldSeedV;

    open spec fn view(&self) -> FieldSeedV {
        FieldSeedV { field: self.field@, value: self.value }
    }
}

impl View for Subject {
    type V = SubjectV;

    open spec fn view(&self) -> SubjectV {
        SubjectV { id: self.id, fields: seeds_view(self.fields@) }
    }
}

/// A run of field seeds as plain values.
pub open spec fn seeds_view(seeds: Seq<FieldSeed>) -> Seq<FieldSeedV> {
    seeds.map_values(|f: FieldSeed| f@)
}

/// A run of subjects as plain values.
pub open spec fn subjects_view(subjects: Seq<Subject>) -> Seq<SubjectV> {
    subjects.map_values(|s: Subject| s@)
}

/// An optional name, copied.
pub fn copy_name(name: &Option<String>) -> (r: Option<String>)
    ensures
        name_view(r) == name_view(*name),
{
    match name {
        Some(n) => Some(n.clone()),
        None => None,
    }
}

impl ActionCmd {
    /// A copy of the same action.
    pub fn copy(&self) -> (r: ActionCmd)
        ensures
            r@ == self@,
    {
        ActionCmd {
            subject: self.subject,
            field: self.field.copy(),
            op: self.op,
            value: self.value,
            duration: self.duration,
            ease: self.ease,
            interp: self.interp,
            name: copy_name(&self.name),
        }
    }
}

impl Node {
    /// A copy of the same node, and everything under it.
    pub fn copy(&self) -> (r: Node)
        ensures
            r@ == self@,
        decreases self@, 1int,
    {
        match self {
            Node::Action { delay, action } => Node::Action { delay: *delay, action: action.copy() },
            Node::Block { delay, block } => {
                proof {
                    assert(self@->Block_block == block@);
                    assert(decreases_to!(self@ => self@->Block_block));
                }
                Node::Block { delay: *delay, block: block.copy() }
            },
            Node::Draft { delay, duration, name } => Node::Draft {
                delay: *delay,
                duration: *duration,
                name: copy_name(name),
            },
        }
    }
}

impl Block {
    /// A copy of the same block, and everything under it.
    pub fn copy(&self) -> (r: Block)
        ensures
            r@ == self@,
        decreases self@, 0int,
    {
        let ghost bv = self@;
        proof {
            lemma_block_view(*self);
        }
        let mut children: Vec<Node> = Vec::new();
        let mut k: usize = 0;
        while k < self.children.len()
            invariant
                k <= self.children@.len(),
                bv == self@,
                children@.len() == k,
                forall|j: int| 0 <= j < k ==> #[trigger] node_view(children@[j]) == bv.children[j],
            decreases self.children@.len() - k,
        {
            proof {
                lemma_block_view(*self);
                assert(self.children@[k as int]@ == bv.children[k as int]);
                assert(decreases_to!(bv => bv.children[k as int]));
            }
            let c = self.children[k].copy();
            children.push(c);
            k = k + 1;
        }
        let r = Block { combinator: self.combinator, children, name: copy_name(&self.name) };
        proof {
            lemma_nodes_view_ext(children@, bv.children);
        }
        r
    }

    /// A block running `children` one after another.
    pub fn chain(children: Vec<Node>) -> (r: Block)
        ensures
            r.combinator == Combinator::Chain,
            r.children@ == children@,
            r.name is None,
    {
        Block { combinator: Combinator::Chain, children, name: None }
    }
}

impl Node {
    /// `action`, with no delay of its own.
    pub fn action(action: ActionCmd) -> (r: Node)
        ensures
            r == (Node::Action { delay: None, action }),
    {
        Node::Action { delay: None, action }
    }

    /// `block`, with no delay of its own.
    pub fn block(block: Block) -> (r: Node)
        ensures
            r == (Node::Block { delay: None, block }),
    {
        Node::Block { delay: None, block }
    }
}

} // verus!
