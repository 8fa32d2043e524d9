//! Creating an action by dropping an animatable field onto the
//! timeline: staging the field's starting value, and splicing the
//! new node into the tree where the drop landed.

use vstd::prelude::*;

use crate::reorder::{Target, wrapper};
use crate::scene::{
    ActionCmd, ActionV, Block, BlockV, FieldRef, FieldSeed, FieldSeedV, Node, NodeV, Scene, Subject,
    SubjectV, lemma_block_view, lemma_nodes_view, seeds_view, subjects_view,
};
use crate::span::Span;
use crate::tree::{
    block_in, insert_at, insert_child, lemma_with_block_in, node_in, path_view, remove_at, take,
};

verus! {

broadcast use {lemma_nodes_view, lemma_block_view};

/// The first subject in `subjects` with id `id`, if any.
pub open spec fn first_subject(subjects: Seq<SubjectV>, id: u128) -> Option<int> {
    if exists|i: int| 0 <= i < subjects.len() && subjects[i].id == id {
        Some(
            choose|i: int|
                0 <= i < subjects.len() && subjects[i].id == id && forall|j: int|
                    0 <= j < i ==> subjects[j].id != id,
        )
    } else {
        None
    }
}

/// The first seed in `seeds` for `field`, if any.
pub open spec fn first_seed(seeds: Seq<FieldSeedV>, field: (Seq<char>, Seq<char>)) -> Option<int> {
    if exists|i: int| 0 <= i < seeds.len() && seeds[i].field == field {
        Some(
            choose|i: int|
                0 <= i < seeds.len() && seeds[i].field == field && forall|j: int|
                    0 <= j < i ==> seeds[j].field != field,
        )
    } else {
        None
    }
}

proof fn lemma_first_subject(subjects: Seq<SubjectV>, id: u128, i: int)
    requires
        0 <= i < subjects.len(),
        subjects[i].id == id,
        forall|j: int| 0 <= j < i ==> subjects[j].id != id,
    ensures
        first_subject(subjects, id) == Some(i),
{
    let k = choose|k: int|
        0 <= k < subjects.len() && subjects[k].id == id && forall|j: int|
            0 <= j < k ==> subjects[j].id != id;
    assert(k == i) by {
        if k < i {
            assert(subjects[k].id != id);
        } else if k > i {
            assert(subjects[i].id != id);
        }
    }
}

proof fn lemma_first_seed(seeds: Seq<FieldSeedV>, field: (Seq<char>, Seq<char>), i: int)
    requires
        0 <= i < seeds.len(),
        seeds[i].field == field,
        forall|j: int| 0 <= j < i ==> seeds[j].field != field,
    ensures
        first_seed(seeds, field) == Some(i),
{
    let k = choose|k: int|
        0 <= k < seeds.len() && seeds[k].field == field && forall|j: int|
            0 <= j < k ==> seeds[j].field != field;
    assert(k == i) by {
        if k < i {
            assert(seeds[k].field != field);
        } else if k > i {
            assert(seeds[i].field != field);
        }
    }
}

/// The first of the subjects with id `id` at or before `w`, one of
/// which is.
proof fn lemma_least_subject(subjects: Seq<SubjectV>, id: u128, w: int) -> (m: int)
    requires
        0 <= w < subjects.len(),
        subjects[w].id == id,
    ensures
        0 <= m <= w,
        subjects[m].id == id,
        forall|j: int| 0 <= j < m ==> subjects[j].id != id,
    decreases w,
{
    if exists|j: int| 0 <= j < w && subjects[j].id == id {
        let j = choose|j: int| 0 <= j < w && subjects[j].id == id;
        lemma_least_subject(subjects, id, j)
    } else {
        w
    }
}

/// What `first_subject` finds: the first subject with that id, or, for
/// `None`, that no subject has it.
proof fn lemma_first_subject_found(subjects: Seq<SubjectV>, id: u128)
    ensures
        match first_subject(subjects, id) {
            Some(i) => 0 <= i < subjects.len() && subjects[i].id == id && forall|j: int|
                0 <= j < i ==> subjects[j].id != id,
            None => forall|j: int| 0 <= j < subjects.len() ==> subjects[j].id != id,
        },
{
    if exists|i: int| 0 <= i < subjects.len() && subjects[i].id == id {
        let w = choose|i: int| 0 <= i < subjects.len() && subjects[i].id == id;
        let m = lemma_least_subject(subjects, id, w);
        lemma_first_subject(subjects, id, m);
    }
}

/// The first of the seeds for `field` at or before `w`, one of which
/// is.
proof fn lemma_least_seed(seeds: Seq<FieldSeedV>, field: (Seq<char>, Seq<char>), w: int) -> (m: int)
    requires
        0 <= w < seeds.len(),
        seeds[w].field == field,
    ensures
        0 <= m <= w,
        seeds[m].field == field,
        forall|j: int| 0 <= j < m ==> seeds[j].field != field,
    decreases w,
{
    if exists|j: int| 0 <= j < w && seeds[j].field == field {
        let j = choose|j: int| 0 <= j < w && seeds[j].field == field;
        lemma_least_seed(seeds, field, j)
    } else {
        w
    }
}

/// What `first_seed` finds: the first seed for that field, or, for
/// `None`, that no seed is for it.
proof fn lemma_first_seed_found(seeds: Seq<FieldSeedV>, field: (Seq<char>, Seq<char>))
    ensures
        match first_seed(seeds, field) {
            Some(i) => 0 <= i < seeds.len() && seeds[i].field == field && forall|j: int|
                0 <= j < i ==> seeds[j].field != field,
            None => forall|j: int| 0 <= j < seeds.len() ==> seeds[j].field != field,
        },
{
    if exists|i: int| 0 <= i < seeds.len() && seeds[i].field == field {
        let w = choose|i: int| 0 <= i < seeds.len() && seeds[i].field == field;
        let m = lemma_least_seed(seeds, field, w);
        lemma_first_seed(seeds, field, m);
    }
}

/// The pooled value `subject`'s `field` is staged at: its first
/// subject entry's first seed for the field; `None` where it is not
/// staged.
pub open spec fn staged_seed(subjects: Seq<SubjectV>, subject: u128, field: (Seq<char>, Seq<char>)) -> Option<u128> {
    match first_subject(subjects, subject) {
        Some(i) => match first_seed(subjects[i].fields, field) {
            Some(j) => Some(subjects[i].fields[j].value),
            None => None,
        },
        None => None,
    }
}

/// Where the first subject with id `id` sits, if there is one.
fn find_subject(subjects: &Vec<Subject>, id: u128) -> (r: Option<usize>)
    ensures
        match r {
            Some(i) => i < subjects@.len() && subjects@[i as int].id == id && first_subject(
                subjects_view(subjects@),
                id,
            ) == Some(i as int),
            None => first_subject(subjects_view(subjects@), id) is None,
        },
{
    let ghost view = subjects_view(subjects@);
    let mut k: usize = 0;
    while k < subjects.len()
        invariant
            k <= subjects@.len(),
            view == subjects_view(subjects@),
            forall|j: int| 0 <= j < k ==> view[j].id != id,
        decreases subjects@.len() - k,
    {
        assert(view[k as int] == subjects@[k as int]@);
        if subjects[k].id == id {
            proof {
                lemma_first_subject(view, id, k as int);
            }
            return Some(k);
        }
        k = k + 1;
    }
    None
}

/// Where the first seed for `field` sits, if there is one.
fn find_seed(seeds: &Vec<FieldSeed>, field: &FieldRef) -> (r: Option<usize>)
    ensures
        match r {
            Some(i) => i < seeds@.len() && first_seed(seeds_view(seeds@), field@) == Some(i as int),
            None => first_seed(seeds_view(seeds@), field@) is None,
        },
{
    let ghost view = seeds_view(seeds@);
    let mut k: usize = 0;
    while k < seeds.len()
        invariant
            k <= seeds@.len(),
            view == seeds_view(seeds@),
            forall|j: int| 0 <= j < k ==> view[j].field != field@,
        decreases seeds@.len() - k,
    {
        assert(view[k as int] == seeds@[k as int]@);
        if seeds[k].field.same(field) {
            proof {
                lemma_first_seed(view, field@, k as int);
            }
            return Some(k);
        }
        k = k + 1;
    }
    None
}

/// The pooled value `subject`'s `field` is staged at: its first
/// subject entry's first seed for the field. `None` where it is not
/// staged.
pub fn seed_of(subjects: &Vec<Subject>, subject: u128, field: &FieldRef) -> (r: Option<u128>)
    ensures
        r == staged_seed(subjects_view(subjects@), subject, field@),
{
    let i = find_subject(subjects, subject)?;
    let entry = &subjects[i];
    assert(subjects_view(subjects@)[i as int] == entry@);
    let j = find_seed(&entry.fields, field)?;
    assert(seeds_view(entry.fields@)[j as int] == entry.fields@[j as int]@);
    Some(entry.fields[j].value)
}

/// The subjects once `field` of `subject` is staged at `value`, unless
/// it already is.
pub open spec fn seeded(
    subjects: Seq<SubjectV>,
    subject: u128,
    field: (Seq<char>, Seq<char>),
    value: u128,
) -> Seq<SubjectV> {
    match first_subject(subjects, subject) {
        Some(i) => if first_seed(subjects[i].fields, field) is Some {
            subjects
        } else {
            subjects.update(
                i,
                SubjectV {
                    id: subject,
                    fields: subjects[i].fields.push(FieldSeedV { field, value }),
                },
            )
        },
        None => subjects.push(
            SubjectV { id: subject, fields: seq![FieldSeedV { field, value }] },
        ),
    }
}

/// Stages `field` on `subject` at `value`, unless it already is -
/// only the first action ever created for a field needs one; every
/// later one's start comes from replaying what came before it.
#[verifier::rlimit(60)]
pub fn seed_field(subjects: &mut Vec<Subject>, subject: u128, field: FieldRef, value: u128)
    ensures
        subjects_view(final(subjects)@) == seeded(
            subjects_view(old(subjects)@),
            subject,
            field@,
            value,
        ),
{
    let ghost before = subjects_view(subjects@);
    let ghost before_exec = subjects@;
    let ghost field_v = field@;
    match find_subject(subjects, subject) {
        Some(i) => {
            let mut entry = subjects.remove(i);
            assert(before[i as int] == entry@);
            let ghost removed = subjects@;
            if find_seed(&entry.fields, &field).is_none() {
                entry.fields.push(FieldSeed { field, value });
                assert(seeds_view(entry.fields@) =~= before[i as int].fields.push(
                    FieldSeedV { field: field_v, value },
                ));
            }
            let ghost entry_v = entry@;
            subjects.insert(i, entry);
            assert(subjects@ =~= before_exec.update(i as int, subjects@[i as int]));
            assert(subjects_view(subjects@) =~= before.update(i as int, entry_v));
            assert(subjects_view(subjects@) =~= seeded(before, subject, field_v, value));
        },
        None => {
            let mut fields: Vec<FieldSeed> = Vec::new();
            fields.push(FieldSeed { field, value });
            let entry = Subject { id: subject, fields };
            assert(entry@ =~= SubjectV { id: subject, fields: seq![FieldSeedV { field: field_v, value }] });
            subjects.push(entry);
            assert(subjects_view(subjects@) =~= seeded(before, subject, field_v, value));
        },
    }
}

/// Staging a field leaves it staged: afterwards `subject` has a seed
/// for `field`, at `value` unless it had one already, which stays;
/// whether or not the subject was staged before.
pub proof fn lemma_seeding_stages(
    subjects: Seq<SubjectV>,
    subject: u128,
    field: (Seq<char>, Seq<char>),
    value: u128,
)
    ensures
        staged_seed(seeded(subjects, subject, field, value), subject, field) == match staged_seed(
            subjects,
            subject,
            field,
        ) {
            Some(v) => Some(v),
            None => Some(value),
        },
{
    lemma_first_subject_found(subjects, subject);
    let after = seeded(subjects, subject, field, value);
    let seed = FieldSeedV { field, value };
    match first_subject(subjects, subject) {
        Some(i) => {
            lemma_first_seed_found(subjects[i].fields, field);
            if first_seed(subjects[i].fields, field) is None {
                let fields = subjects[i].fields.push(seed);
                assert(after[i] == SubjectV { id: subject, fields });
                lemma_first_subject(after, subject, i);
                lemma_first_seed(fields, field, subjects[i].fields.len() as int);
            }
        },
        None => {
            let n = subjects.len() as int;
            assert(after[n] == SubjectV { id: subject, fields: seq![seed] });
            lemma_first_subject(after, subject, n);
            lemma_first_seed(seq![seed], field, 0);
        },
    }
}

/// Staging one field leaves every other field of every subject as it
/// was staged, or not.
pub proof fn lemma_seeding_spares_others(
    subjects: Seq<SubjectV>,
    subject: u128,
    field: (Seq<char>, Seq<char>),
    value: u128,
    other: u128,
    other_field: (Seq<char>, Seq<char>),
)
    requires
        other != subject || other_field != field,
    ensures
        staged_seed(seeded(subjects, subject, field, value), other, other_field) == staged_seed(
            subjects,
            other,
            other_field,
        ),
{
    lemma_first_subject_found(subjects, subject);
    lemma_first_subject_found(subjects, other);
    let after = seeded(subjects, subject, field, value);
    let seed = FieldSeedV { field, value };
    if after == subjects {
        return;
    }
    match first_subject(subjects, subject) {
        Some(i) => {
            let fields = subjects[i].fields.push(seed);
            assert(after == subjects.update(i, SubjectV { id: subject, fields }));
            match first_subject(subjects, other) {
                Some(k) => {
                    lemma_first_subject(after, other, k);
                    if k == i {
                        lemma_first_seed_found(subjects[i].fields, other_field);
                        match first_seed(subjects[i].fields, other_field) {
                            Some(j) => {
                                lemma_first_seed(fields, other_field, j);
                            },
                            None => {
                                lemma_first_seed_found(fields, other_field);
                            },
                        }
                    }
                },
                None => {
                    lemma_first_subject_found(after, other);
                },
            }
        },
        None => {
            let n = subjects.len() as int;
            assert(after == subjects.push(SubjectV { id: subject, fields: seq![seed] }));
            match first_subject(subjects, other) {
                Some(k) => {
                    lemma_first_subject(after, other, k);
                },
                None => {
                    lemma_first_subject_found(after, other);
                    if other == subject {
                        lemma_first_seed_found(seq![seed], other_field);
                    }
                },
            }
        },
    }
}

/// What putting a fresh `node` where `target` says leaves: the tree,
/// and where the node landed. With no target it goes last among the
/// root's children.
pub open spec fn spliced(root: BlockV, target: Option<Target>, node: NodeV) -> (BlockV, Option<Seq<usize>>) {
    match target {
        None => (
            BlockV { children: root.children.push(node), ..root },
            Some(seq![root.children.len() as usize]),
        ),
        Some(Target::Insert { parent, index }) => match block_in(root, parent@) {
            Some(b) => {
                let at = if index <= b.children.len() {
                    index as int
                } else {
                    b.children.len() as int
                };
                (insert_at(root, parent@, at, node), Some(parent@.push(at as usize)))
            },
            None => (root, None),
        },
        Some(Target::Merge { path, combinator, before }) => match node_in(root, path@) {
            Some(host) => (
                insert_at(
                    remove_at(root, path@),
                    path@.drop_last(),
                    path@.last() as int,
                    wrapper(node, host, combinator, before),
                ),
                Some(
                    path@.push(
                        if before {
                            0usize
                        } else {
                            1usize
                        },
                    ),
                ),
            ),
            None => (root, None),
        },
    }
}

/// A fresh node is found where splicing says it landed. Merged onto a
/// host, it sits in a new wrapper in the host's place, first when
/// `before`, with the host beside it.
pub proof fn lemma_splice_lands_node(root: BlockV, target: Option<Target>, node: NodeV)
    requires
        spliced(root, target, node).1 is Some,
        root.children.len() < usize::MAX,
    ensures
        node_in(spliced(root, target, node).0, spliced(root, target, node).1.unwrap()) == Some(node),
        match target {
            Some(Target::Merge { path, before, .. }) => {
                &&& spliced(root, target, node).1 == Some(path@.push(if before { 0usize } else { 1usize }))
                &&& node_in(spliced(root, target, node).0, path@.push(if before { 1usize } else { 0usize }))
                    == node_in(root, path@)
            },
            _ => true,
        },
{
    match target {
        None => {
            let p = seq![root.children.len() as usize];
            assert(p.drop_last() =~= Seq::<usize>::empty());
        },
        Some(Target::Insert { parent, index }) => {
            let b = block_in(root, parent@).unwrap();
            let at = if index <= b.children.len() {
                index as int
            } else {
                b.children.len() as int
            };
            crate::tree::lemma_insert_at_in(root, parent@, at as usize, node);
        },
        Some(Target::Merge { path, combinator, before }) => {
            let p = path@;
            let host = node_in(root, p).unwrap();
            crate::tree::lemma_remove_at_parent(root, p);
            assert(p.drop_last().push(p.last()) =~= p);
            let inner = BlockV {
                combinator,
                children: if before {
                    seq![node, host]
                } else {
                    seq![host, node]
                },
                name: None,
            };
            crate::tree::lemma_insert_at_child(remove_at(root, p), p.drop_last(), p.last(), None, inner, 0);
            crate::tree::lemma_insert_at_child(remove_at(root, p), p.drop_last(), p.last(), None, inner, 1);
        },
    }
}

/// Puts `node` where `target` says, returning the path it landed at.
pub fn splice(root: &mut Block, target: Option<Target>, node: Node) -> (r: Option<Vec<usize>>)
    requires
        old(root).children@.len() < usize::MAX,
    ensures
        (final(root)@, path_view(r)) == spliced(old(root)@, target, node@),
{
    let ghost node_v = node@;
    let ghost start = root@;
    match target {
        None => {
            root.children.push(node);
            assert(root@.children =~= start.children.push(node_v));
            let mut landed: Vec<usize> = Vec::new();
            landed.push(root.children.len() - 1);
            assert(landed@ =~= seq![start.children.len() as usize]);
            Some(landed)
        },
        Some(Target::Insert { parent, index }) => {
            let at = insert_child(root, parent.as_slice(), index, node)?;
            let mut landed = parent;
            landed.push(at);
            Some(landed)
        },
        Some(Target::Merge { path, combinator, before }) => {
            if path.len() == 0 {
                return None;
            }
            let (parent, last) = path.as_slice().split_at(path.len() - 1);
            assert(parent@ == path@.drop_last());
            let index = last[0];
            let host = take(root, path.as_slice())?;
            let ghost host_v = host@;
            let children = if before {
                vec![node, host]
            } else {
                vec![host, node]
            };
            let wrapped = Node::block(Block { combinator, children, name: None });
            proof {
                assert(wrapped@ == wrapper(node_v, host_v, combinator, before)) by {
                    let b = Block { combinator, children, name: None };
                    assert(b@.children =~= if before {
                        seq![node_v, host_v]
                    } else {
                        seq![host_v, node_v]
                    });
                }
                let pb = block_in(start, path@.drop_last()).unwrap();
                let nb = BlockV { children: pb.children.remove(index as int), ..pb };
                lemma_with_block_in(start, path@.drop_last(), nb);
            }
            insert_child(root, parent, index, wrapped)?;
            let mut landed = path;
            landed.push(if before {
                0
            } else {
                1
            });
            Some(landed)
        },
    }
}

/// The operation a new action starts with: driving its field *to* a
/// value, by the index the backend lists it at.
pub const OP_TO: u32 = 0;

/// The interpolation a new action starts with: linear, by the index
/// the backend lists it at.
pub const INTERP_LINEAR: u32 = 0;

/// How long a new action runs, in seconds.
pub const DEFAULT_SECONDS: u64 = 1;

/// The action a dropped field starts as: driving `subject`'s `field`
/// to the value `value` names, linearly, over the default duration,
/// unnamed and with no delay of its own.
pub open spec fn fresh_action(subject: u128, field: (Seq<char>, Seq<char>), value: u128, duration: Span) -> NodeV {
    NodeV::Action {
        delay: None,
        action: ActionV {
            subject,
            field,
            op: OP_TO,
            value,
            duration,
            ease: None,
            interp: Some(INTERP_LINEAR),
            name: None,
        },
    }
}

/// Creates the action a dropped field starts as: stages the field on
/// `subject` at `seed` unless it already is, then puts an action
/// driving it to `value` where `target` says. `value` and `seed` are
/// the value pool's ids for the action's target and the field's
/// starting value. Returns where the action landed.
pub fn add_action(
    scene: &mut Scene,
    subject: u128,
    field: FieldRef,
    value: u128,
    seed: u128,
    target: Option<Target>,
) -> (r: Option<Vec<usize>>)
    requires
        old(scene).animation.children@.len() < usize::MAX,
    ensures
        subjects_view(final(scene).stage.subjects@) == seeded(
            subjects_view(old(scene).stage.subjects@),
            subject,
            field@,
            seed,
        ),
        exists|d: Span|
            d@ == DEFAULT_SECONDS * 1_000_000_000 && (final(scene).animation@, path_view(r)) == spliced(
                old(scene).animation@,
                target,
                fresh_action(subject, field@, value, d),
            ),
{
    let staged = field.copy();
    seed_field(&mut scene.stage.subjects, subject, staged, seed);
    let duration = Span::from_secs(DEFAULT_SECONDS);
    let node = Node::action(
        ActionCmd {
            subject,
            field,
            op: OP_TO,
            value,
            duration,
            ease: None,
            interp: Some(INTERP_LINEAR),
            name: None,
        },
    );
    let r = splice(&mut scene.animation, target, node);
    assert(node@ == fresh_action(subject, field@, value, duration));
    r
}

} // verus!
