//! What the editor does when its scene will not compile, and how it
//! knows the scene changed since it last compiled it.
//!
//! When compiling fails, the action the error names is turned into a
//! draft, keeping its timing and name, and compiling is tried again.
//! Each turn removes one action, so the retrying ends.

use vstd::prelude::*;

use crate::scene::{
    ActionCmd, ActionV, Block, BlockV, FieldRef, Node, NodeV, Scene, Stage, lemma_block_view,
    lemma_nodes_view, lemma_nodes_view_ext,
};

verus! {

broadcast use {lemma_nodes_view, lemma_block_view};

/// Why a scene failed to compile: the one thing it could not resolve.
#[derive(Debug)]
pub enum CompileError {
    /// No subject has this id.
    UnknownSubject(u128),
    /// No field of that name is registered.
    UnknownField(FieldRef),
    /// The subject this field belongs to is of no known kind.
    UnknownSubjectKind(FieldRef),
    /// The value given does not fit this field.
    TypeMismatch(FieldRef),
    /// No operation has this index.
    UnknownOp(u32),
    /// No value in the pool has this id.
    UnknownValue(u128),
    /// No easing curve has this index.
    UnknownEase(u32),
    /// No interpolation has this index.
    UnknownInterp(u32),
}

/// Whether `error` names something `action` uses.
pub open spec fn error_names(action: ActionV, error: CompileError) -> bool {
    match error {
        CompileError::UnknownSubject(id) => action.subject == id,
        CompileError::UnknownField(field) => action.field == field@,
        CompileError::UnknownSubjectKind(field) => action.field == field@,
        CompileError::TypeMismatch(field) => action.field == field@,
        CompileError::UnknownOp(op) => action.op == op,
        CompileError::UnknownValue(value) => action.value == value,
        CompileError::UnknownEase(ease) => action.ease == Some(ease),
        CompileError::UnknownInterp(interp) => action.interp == Some(interp),
    }
}

/// What each error blames: an unknown subject the actions on that
/// subject; an unresolvable field, subject kind or value type the
/// actions driving that field; an unknown op, value, ease or
/// interpolation the actions using that one. An action that sets no
/// ease or no interpolation is never blamed for one.
pub proof fn lemma_error_blames(action: ActionV, error: CompileError)
    ensures
        error is UnknownSubject ==> (error_names(action, error) <==> action.subject == error->UnknownSubject_0),
        error is UnknownField ==> (error_names(action, error) <==> action.field == error->UnknownField_0@),
        error is UnknownSubjectKind ==> (error_names(action, error) <==> action.field
            == error->UnknownSubjectKind_0@),
        error is TypeMismatch ==> (error_names(action, error) <==> action.field == error->TypeMismatch_0@),
        error is UnknownOp ==> (error_names(action, error) <==> action.op == error->UnknownOp_0),
        error is UnknownValue ==> (error_names(action, error) <==> action.value == error->UnknownValue_0),
        error is UnknownEase ==> (error_names(action, error) <==> (action.ease is Some
            && action.ease->Some_0 == error->UnknownEase_0)),
        error is UnknownInterp ==> (error_names(action, error) <==> (action.interp is Some
            && action.interp->Some_0 == error->UnknownInterp_0)),
        action.ease is None && error is UnknownEase ==> !error_names(action, error),
        action.interp is None && error is UnknownInterp ==> !error_names(action, error),
{
}

/// Whether `error` names something `action` uses.
pub fn matches_error(action: &ActionCmd, error: &CompileError) -> (r: bool)
    ensures
        r == error_names(action@, *error),
{
    match error {
        CompileError::UnknownSubject(id) => action.subject == *id,
        CompileError::UnknownField(field) => action.field.same(field),
        CompileError::UnknownSubjectKind(field) => action.field.same(field),
        CompileError::TypeMismatch(field) => action.field.same(field),
        CompileError::UnknownOp(op) => action.op == *op,
        CompileError::UnknownValue(value) => action.value == *value,
        CompileError::UnknownEase(ease) => match action.ease {
            Some(e) => e == *ease,
            None => false,
        },
        CompileError::UnknownInterp(interp) => match action.interp {
            Some(i) => i == *interp,
            None => false,
        },
    }
}

/// `node` with the first action under it that `error` names turned
/// into a draft of the same timing and name; `None` when there is no
/// such action.
pub open spec fn demoted_node(node: NodeV, error: CompileError) -> Option<NodeV>
    decreases node, 0int,
{
    match node {
        NodeV::Action { delay, action } => if error_names(action, error) {
            Some(NodeV::Draft { delay, duration: action.duration, name: action.name })
        } else {
            None
        },
        NodeV::Block { delay, block } => match demoted_block(block, error) {
            Some(b) => Some(NodeV::Block { delay, block: b }),
            None => None,
        },
        NodeV::Draft { .. } => None,
    }
}

/// `block` with the first action under it, depth-first, that `error`
/// names turned into a draft; `None` when there is no such action.
pub open spec fn demoted_block(block: BlockV, error: CompileError) -> Option<BlockV>
    decreases block, 0int,
{
    match demoted_from(block.children, error, 0) {
        Some(children) => Some(BlockV { children, ..block }),
        None => None,
    }
}

/// `nodes` with the first action that `error` names, in the `i`th
/// node or after it, turned into a draft.
pub open spec fn demoted_from(nodes: Seq<NodeV>, error: CompileError, i: int) -> Option<Seq<NodeV>>
    decreases nodes, nodes.len() - i,
{
    if i < 0 || i >= nodes.len() {
        None
    } else {
        match demoted_node(nodes[i], error) {
            Some(n) => Some(nodes.update(i, n)),
            None => demoted_from(nodes, error, i + 1),
        }
    }
}

/// Finds the first action under `block`, depth-first, that `error`
/// names as unresolvable, and turns it into a draft in place: its
/// delay, duration and name stay, the subject, field, op and value
/// that `error` says is broken go. Whether it found one.
pub fn demote_offending_action(block: &mut Block, error: &CompileError) -> (r: bool)
    ensures
        r == demoted_block(old(block)@, *error) is Some,
        r ==> final(block)@ == demoted_block(old(block)@, *error).unwrap(),
        !r ==> final(block)@ == old(block)@,
    decreases old(block)@,
{
    let ghost ob = block@;
    let mut i: usize = 0;
    while i < block.children.len()
        invariant
            i <= block.children@.len(),
            block@ == ob,
            ob == old(block)@,
            demoted_from(ob.children, *error, 0) == demoted_from(ob.children, *error, i as int),
        decreases block.children@.len() - i,
    {
        let ghost before = block.children@;
        assert(decreases_to!(ob => ob.children[i as int]));
        let is_block = match &block.children[i] {
            Node::Block { .. } => true,
            _ => false,
        };
        if is_block {
            let child = block.children.remove(i);
            match child {
                Node::Block { delay, block: mut inner } => {
                    let ghost inner_before = inner@;
                    proof {
                        assert(ob.children[i as int] == NodeV::Block { delay, block: inner_before });
                        assert(decreases_to!(ob.children[i as int] => inner_before));
                    }
                    let hit = demote_offending_action(&mut inner, error);
                    let ghost put = Node::Block { delay, block: inner };
                    block.children.insert(i, Node::Block { delay, block: inner });
                    proof {
                        assert(block.children@ =~= before.update(i as int, put));
                        lemma_nodes_view_ext(
                            block.children@,
                            ob.children.update(i as int, node_view_of(put)),
                        );
                    }
                    if hit {
                        proof {
                            let n = NodeV::Block { delay, block: inner@ };
                            assert(node_view_of(put) == n);
                            assert(demoted_node(ob.children[i as int], *error) == Some(n));
                            assert(demoted_from(ob.children, *error, i as int) == Some(
                                ob.children.update(i as int, n),
                            ));
                            assert(block@ =~= demoted_block(ob, *error).unwrap());
                        }
                        return true;
                    }
                    assert(ob.children.update(i as int, ob.children[i as int]) =~= ob.children);
                    assert(block@ =~= ob);
                },
                other => {
                    block.children.insert(i, other);
                    assert(block.children@ =~= before);
                },
            }
        } else {
            let hit = match &block.children[i] {
                Node::Action { action, .. } => matches_error(action, error),
                _ => false,
            };
            if hit {
                let child = block.children.remove(i);
                match child {
                    Node::Action { delay, action } => {
                        let draft = Node::Draft { delay, duration: action.duration, name: action.name };
                        block.children.insert(i, draft);
                        proof {
                            assert(block.children@ =~= before.update(i as int, draft));
                            lemma_nodes_view_ext(
                                block.children@,
                                ob.children.update(i as int, node_view_of(draft)),
                            );
                            assert(block@ =~= demoted_block(ob, *error).unwrap());
                        }
                        return true;
                    },
                    other => {
                        block.children.insert(i, other);
                        assert(block.children@ =~= before);
                    },
                }
            }
        }
        i = i + 1;
    }
    false
}

/// A node as plain values.
spec fn node_view_of(node: Node) -> NodeV {
    node@
}

/// How many actions sit under a node.
pub open spec fn node_actions(node: NodeV) -> nat
    decreases node, 0int,
{
    match node {
        NodeV::Action { .. } => 1,
        NodeV::Block { block, .. } => block_actions(block),
        NodeV::Draft { .. } => 0,
    }
}

/// How many actions sit under a block.
pub open spec fn block_actions(block: BlockV) -> nat
    decreases block, 0int,
{
    nodes_actions(block.children, block.children.len() as int)
}

/// How many actions sit under the first `k` of `nodes`.
pub open spec fn nodes_actions(nodes: Seq<NodeV>, k: int) -> nat
    decreases nodes, k,
{
    if k <= 0 || k > nodes.len() {
        0
    } else {
        nodes_actions(nodes, k - 1) + node_actions(nodes[k - 1])
    }
}

/// Replacing one node of a run changes how many actions its first `k`
/// nodes hold by how many the new node holds over the old, when the
/// replaced node is among them.
proof fn lemma_update_actions(nodes: Seq<NodeV>, j: int, m: NodeV, k: int)
    requires
        0 <= j < nodes.len(),
        0 <= k <= nodes.len(),
    ensures
        nodes_actions(nodes.update(j, m), k) + (if j < k {
            node_actions(nodes[j])
        } else {
            0
        }) == nodes_actions(nodes, k) + (if j < k {
            node_actions(m)
        } else {
            0
        }),
    decreases k,
{
    if k > 0 {
        lemma_update_actions(nodes, j, m, k - 1);
    }
}

/// Demoting turns exactly one action of a node into a draft.
proof fn lemma_node_demote(node: NodeV, error: CompileError)
    requires
        demoted_node(node, error) is Some,
    ensures
        node_actions(demoted_node(node, error).unwrap()) + 1 == node_actions(node),
    decreases node, 0int,
{
    if let NodeV::Block { block, .. } = node {
        lemma_block_demote(block, error);
    }
}

/// Demoting turns exactly one action of a block into a draft.
proof fn lemma_block_demote(block: BlockV, error: CompileError)
    requires
        demoted_block(block, error) is Some,
    ensures
        block_actions(demoted_block(block, error).unwrap()) + 1 == block_actions(block),
    decreases block, 0int,
{
    lemma_from_demote(block.children, error, 0);
}

/// Demoting turns exactly one action of a run, at the `i`th node or
/// after it, into a draft.
proof fn lemma_from_demote(nodes: Seq<NodeV>, error: CompileError, i: int)
    requires
        demoted_from(nodes, error, i) is Some,
    ensures
        demoted_from(nodes, error, i).unwrap().len() == nodes.len(),
        nodes_actions(demoted_from(nodes, error, i).unwrap(), nodes.len() as int) + 1 == nodes_actions(
            nodes,
            nodes.len() as int,
        ),
    decreases nodes, nodes.len() - i,
{
    match demoted_node(nodes[i], error) {
        Some(n) => {
            lemma_node_demote(nodes[i], error);
            lemma_update_actions(nodes, i, n, nodes.len() as int);
        },
        None => {
            lemma_from_demote(nodes, error, i + 1);
        },
    }
}

/// Where in a run, from the `i`th node on, demoting lands: the first
/// node that has something to demote.
proof fn lemma_from_site(nodes: Seq<NodeV>, error: CompileError, i: int) -> (k: int)
    requires
        demoted_from(nodes, error, i) is Some,
    ensures
        0 <= i <= k < nodes.len(),
        demoted_node(nodes[k], error) is Some,
        forall|j: int| i <= j < k ==> demoted_node(#[trigger] nodes[j], error) is None,
        demoted_from(nodes, error, i) == Some(nodes.update(k, demoted_node(nodes[k], error).unwrap())),
    decreases nodes.len() - i,
{
    match demoted_node(nodes[i], error) {
        Some(_) => i,
        None => lemma_from_site(nodes, error, i + 1),
    }
}

/// Demoting changes one child of the block and nothing else: the first
/// child with a blamed action in it. Either that child is an action
/// the error blames, which becomes a draft with the same delay,
/// duration and name; or it is a block, which keeps its delay and has
/// one of its own actions demoted in turn. Every child before it is
/// neither.
pub proof fn lemma_demote_site(block: BlockV, error: CompileError) -> (k: int)
    requires
        demoted_block(block, error) is Some,
    ensures
        0 <= k < block.children.len(),
        forall|j: int|
            0 <= j < k ==> match #[trigger] block.children[j] {
                NodeV::Action { action, .. } => !error_names(action, error),
                NodeV::Block { block: inner, .. } => demoted_block(inner, error) is None,
                NodeV::Draft { .. } => true,
            },
        match block.children[k] {
            NodeV::Action { delay, action } => {
                &&& error_names(action, error)
                &&& demoted_block(block, error) == Some(
                    BlockV {
                        children: block.children.update(
                            k,
                            NodeV::Draft { delay, duration: action.duration, name: action.name },
                        ),
                        ..block
                    },
                )
            },
            NodeV::Block { delay, block: inner } => {
                &&& demoted_block(inner, error) is Some
                &&& demoted_block(block, error) == Some(
                    BlockV {
                        children: block.children.update(
                            k,
                            NodeV::Block { delay, block: demoted_block(inner, error).unwrap() },
                        ),
                        ..block
                    },
                )
            },
            NodeV::Draft { .. } => false,
        },
{
    let k = lemma_from_site(block.children, error, 0);
    assert forall|j: int| 0 <= j < k implies match #[trigger] block.children[j] {
        NodeV::Action { action, .. } => !error_names(action, error),
        NodeV::Block { block: inner, .. } => demoted_block(inner, error) is None,
        NodeV::Draft { .. } => true,
    } by {
        assert(demoted_node(block.children[j], error) is None);
    }
    k
}

/// Each time compiling fails on an action and that action is demoted,
/// the scene holds one action fewer; so compiling, demoting and
/// compiling again ends.
pub proof fn lemma_demote_removes_one_action(block: BlockV, error: CompileError)
    requires
        demoted_block(block, error) is Some,
    ensures
        block_actions(demoted_block(block, error).unwrap()) + 1 == block_actions(block),
{
    lemma_block_demote(block, error);
}

/// Which compile of which scene the editor last saw: `generation`
/// tells one whole scene from its replacement, `edits` counts the
/// writes to it.
#[derive(Clone, Copy, Debug, PartialEq, Eq, Structural)]
pub struct SceneVersion {
    pub generation: u32,
    pub edits: u32,
}

impl SceneVersion {
    /// A freshly made scene, the `generation`th, not yet written to.
    pub open spec fn first_spec(generation: u32) -> SceneVersion {
        SceneVersion { generation, edits: 0 }
    }

    /// The same scene after one more write; the count wraps.
    pub open spec fn edited_spec(self) -> SceneVersion {
        SceneVersion {
            generation: self.generation,
            edits: if self.edits == u32::MAX {
                0
            } else {
                (self.edits + 1) as u32
            },
        }
    }

    /// A freshly made scene, the `generation`th, not yet written to.
    pub fn first(generation: u32) -> (r: SceneVersion)
        ensures
            r == SceneVersion::first_spec(generation),
    {
        SceneVersion { generation, edits: 0 }
    }

    /// The same scene after one more write; the count wraps.
    pub fn edited(self) -> (r: SceneVersion)
        ensures
            r == self.edited_spec(),
    {
        SceneVersion { generation: self.generation, edits: self.edits.wrapping_add(1) }
    }
}

/// Whether the scene was written to, or replaced, since `seen` was
/// last brought up to date; it is brought up to date.
pub fn scene_dirty(version: SceneVersion, seen: &mut Option<SceneVersion>) -> (r: bool)
    ensures
        r == (*old(seen) != Some(version)),
        *final(seen) == Some(version),
{
    let dirty = match *seen {
        Some(v) => !(v == version),
        None => true,
    };
    *seen = Some(version);
    dirty
}

/// `version` after `k` more writes.
pub open spec fn edited_times(version: SceneVersion, k: nat) -> SceneVersion
    decreases k,
{
    if k == 0 {
        version
    } else {
        edited_times(version, (k - 1) as nat).edited_spec()
    }
}

/// Writes move the count on by one each, wrapping, and leave the
/// generation alone.
proof fn lemma_edited_times(version: SceneVersion, k: nat)
    ensures
        edited_times(version, k).edits == (version.edits + k) % 4294967296,
        edited_times(version, k).generation == version.generation,
    decreases k,
{
    if k > 0 {
        lemma_edited_times(version, (k - 1) as nat);
    }
}

/// A scene written to any number of times from one up to `2^32 - 1`
/// since it was last seen reads as dirty: its version differs from the
/// one seen, so `scene_dirty` says so. So does a scene never seen, and
/// one replaced by a fresh scene of another generation.
pub proof fn lemma_edits_show_dirty(seen: SceneVersion, k: nat, generation: u32)
    requires
        1 <= k < 4294967296,
    ensures
        Some(seen) != Some(edited_times(seen, k)),
        None::<SceneVersion> != Some(edited_times(seen, k)),
        generation != seen.generation ==> Some(seen) != Some(SceneVersion::first_spec(generation)),
{
    lemma_edited_times(seen, k);
}

/// The generation `k` takes after `start`: the count wraps after
/// `2^32`.
pub open spec fn after_takes(start: u32, k: nat) -> u32 {
    ((start + k) % 4294967296) as u32
}

/// Hands out scene generations in turn, from zero, so that each scene
/// the editor makes is told apart from the ones it replaces.
pub struct Generations {
    next: u32,
}

impl Generations {
    /// The generation the next scene gets.
    pub closed spec fn upcoming(&self) -> u32 {
        self.next
    }

    /// A counter that has handed out nothing yet.
    pub fn new() -> (r: Generations)
        ensures
            r.upcoming() == 0,
    {
        Generations { next: 0 }
    }

    /// Hands out the next generation, and moves on past it.
    pub fn take(&mut self) -> (r: u32)
        ensures
            r == old(self).upcoming(),
            final(self).upcoming() == after_takes(old(self).upcoming(), 1),
    {
        let r = self.next;
        self.next = self.next.wrapping_add(1);
        r
    }
}

/// Taking `i` generations and then `j` more is taking `i + j`.
pub proof fn lemma_takes_add(start: u32, i: nat, j: nat)
    ensures
        after_takes(after_takes(start, i), j) == after_takes(start, i + j),
{
    vstd::arithmetic::div_mod::lemma_add_mod_noop((start + i) as int, j as int, 4294967296);
    vstd::arithmetic::div_mod::lemma_mod_twice((start + i) as int, 4294967296);
    vstd::arithmetic::div_mod::lemma_small_mod(j % 4294967296, 4294967296);
    vstd::arithmetic::div_mod::lemma_add_mod_noop(((start + i) % 4294967296) as int, j as int, 4294967296);
}

/// A scene made from the counter after the one last seen, fewer than
/// `2^32` generations on, reads as dirty, however often the seen one
/// had been written to: its generation differs.
pub proof fn lemma_replaced_scene_shows_dirty(seen: SceneVersion, start: u32, i: nat, j: nat)
    requires
        i < j < i + 4294967296,
        seen.generation == after_takes(start, i),
    ensures
        Some(seen) != Some(SceneVersion::first_spec(after_takes(start, j))),
{
    let a = (start + i) as int;
    let b = (start + j) as int;
    vstd::arithmetic::div_mod::lemma_fundamental_div_mod(a, 4294967296);
    vstd::arithmetic::div_mod::lemma_fundamental_div_mod(b, 4294967296);
    if a % 4294967296 == b % 4294967296 {
        assert(b - a == 4294967296 * (b / 4294967296 - a / 4294967296));
        assert(false) by (nonlinear_arith)
            requires
                b - a == 4294967296 * (b / 4294967296 - a / 4294967296),
                0 < b - a < 4294967296,
        ;
    }
}

/// The project's scene as the editor holds it: what the panels edit,
/// and the version a recompile checks to see whether anything changed.
pub struct EditorScene {
    scene: Scene,
    version: SceneVersion,
}

impl EditorScene {
    /// Holds `scene` as a new scene, not yet edited, with the next
    /// generation `generations` hands out.
    pub fn new(scene: Scene, generations: &mut Generations) -> (r: EditorScene)
        ensures
            r.scene() == scene,
            r.version() == SceneVersion::first_spec(old(generations).upcoming()),
            final(generations).upcoming() == after_takes(old(generations).upcoming(), 1),
    {
        let generation = generations.take();
        EditorScene { scene, version: SceneVersion::first(generation) }
    }

    /// A scene with nothing in it yet: no subjects, and an empty chain
    /// to add to.
    pub fn empty(generations: &mut Generations) -> (r: EditorScene)
        ensures
            r.scene().stage.subjects@.len() == 0,
            r.scene().animation@ == (BlockV {
                combinator: crate::scene::Combinator::Chain,
                children: Seq::empty(),
                name: None,
            }),
            r.version() == SceneVersion::first_spec(old(generations).upcoming()),
            final(generations).upcoming() == after_takes(old(generations).upcoming(), 1),
    {
        let animation = Block::chain(Vec::new());
        assert(animation@.children =~= Seq::<NodeV>::empty());
        EditorScene::new(Scene { stage: Stage { subjects: Vec::new() }, animation }, generations)
    }

    /// The scene held.
    pub closed spec fn scene(&self) -> Scene {
        self.scene
    }

    /// Which version of the scene this is.
    pub closed spec fn version(&self) -> SceneVersion {
        self.version
    }

    /// The scene, to read.
    pub fn get(&self) -> (r: &Scene)
        ensures
            *r == self.scene(),
    {
        &self.scene
    }

    /// The version a recompile compares against what it last saw.
    pub fn current_version(&self) -> (r: SceneVersion)
        ensures
            r == self.version(),
    {
        self.version
    }

    /// The scene, to change: counts as an edit, so the next check sees
    /// the scene dirty whether or not anything is written through it.
    pub fn edit(&mut self) -> (r: &mut Scene)
        ensures
            *r == old(self).scene(),
            final(self).scene() == *final(r),
            final(self).version() == old(self).version().edited_spec(),
    {
        self.version = self.version.edited();
        &mut self.scene
    }
}

} // verus!
