//! Moving a scene subject by dragging its hierarchy row.
//!
//! Reordering and reparenting are the same edit: every subject sits in
//! some parent's list of children, so both are a matter of which list
//! a row lands in and where. A row itself means inside it; the gaps
//! either side of one mean beside it.
//!
//! The hierarchy is read as plain values: each entity's parent, and
//! each parent's children in order, entities by their ids.

use vstd::prelude::*;
use vstd::string::*;

verus! {

/// Where a drop puts what is dragged, relative to the row aimed at.
#[derive(Clone, Copy, Debug, PartialEq, Eq, Structural)]
pub enum At {
    Before,
    Into,
    After,
}

/// The hierarchy as plain values: `(child, parent)` for each entity
/// that has a parent, and `(parent, children)` for each entity that
/// has children, in their order.
pub struct Family {
    pub parents: Vec<(u64, u64)>,
    pub children: Vec<(u64, Vec<u64>)>,
}

/// The hierarchy, as plain values.
pub struct FamilyV {
    pub parents: Seq<(u64, u64)>,
    pub children: Seq<(u64, Seq<u64>)>,
}

impl View for Family {
    type V = FamilyV;

    open spec fn view(&self) -> FamilyV {
        FamilyV {
            parents: self.parents@,
            children: self.children@.map_values(|e: (u64, Vec<u64>)| (e.0, e.1@)),
        }
    }
}

/// The parent of `e`: the first entry naming it.
pub open spec fn parent_in(parents: Seq<(u64, u64)>, e: u64) -> Option<u64>
    decreases parents.len(),
{
    if parents.len() == 0 {
        None
    } else if parents[0].0 == e {
        Some(parents[0].1)
    } else {
        parent_in(parents.drop_first(), e)
    }
}

/// The children of `p`: the first entry naming it.
pub open spec fn children_in(children: Seq<(u64, Seq<u64>)>, p: u64) -> Option<Seq<u64>>
    decreases children.len(),
{
    if children.len() == 0 {
        None
    } else if children[0].0 == p {
        Some(children[0].1)
    } else {
        children_in(children.drop_first(), p)
    }
}

/// Where `e` first sits in `list`.
pub open spec fn position_in(list: Seq<u64>, e: u64) -> Option<int>
    decreases list.len(),
{
    if list.len() == 0 {
        None
    } else if list[0] == e {
        Some(0)
    } else {
        match position_in(list.drop_first(), e) {
            Some(i) => Some(i + 1),
            None => None,
        }
    }
}

/// The entity `k` steps above `e`: its parent for one step.
pub open spec fn ancestor(parents: Seq<(u64, u64)>, e: u64, k: nat) -> Option<u64>
    decreases k,
{
    if k == 0 {
        Some(e)
    } else {
        match ancestor(parents, e, (k - 1) as nat) {
            Some(a) => parent_in(parents, a),
            None => None,
        }
    }
}

/// Whether `entity` is somewhere above `row`: one of its ancestors, a
/// chain of parents being no longer than there are entities with one.
pub open spec fn is_above(parents: Seq<(u64, u64)>, entity: u64, row: u64) -> bool {
    exists|k: nat| 1 <= k <= parents.len() + 1 && ancestor(parents, row, k) == Some(entity)
}

/// The parent of `e`.
pub fn parent_of(family: &Family, e: u64) -> (r: Option<u64>)
    ensures
        r == parent_in(family@.parents, e),
{
    let ghost s = family@.parents;
    let mut k: usize = 0;
    assert(s.skip(0) =~= s);
    while k < family.parents.len()
        invariant
            k <= s.len(),
            s == family@.parents,
            parent_in(s, e) == parent_in(s.skip(k as int), e),
        decreases s.len() - k,
    {
        assert(s.skip(k as int).drop_first() =~= s.skip(k + 1));
        let (child, parent) = family.parents[k];
        if child == e {
            return Some(parent);
        }
        k = k + 1;
    }
    None
}

/// The children of `p`, in order.
pub fn children_of<'a>(family: &'a Family, p: u64) -> (r: Option<&'a Vec<u64>>)
    ensures
        match r {
            Some(list) => children_in(family@.children, p) == Some(list@),
            None => children_in(family@.children, p) is None,
        },
{
    let ghost s = family@.children;
    let mut k: usize = 0;
    assert(s.skip(0) =~= s);
    while k < family.children.len()
        invariant
            k <= s.len(),
            s == family@.children,
            s.len() == family.children@.len(),
            children_in(s, p) == children_in(s.skip(k as int), p),
        decreases s.len() - k,
    {
        assert(s.skip(k as int).drop_first() =~= s.skip(k + 1));
        assert(s[k as int] == (family.children@[k as int].0, family.children@[k as int].1@));
        if family.children[k].0 == p {
            return Some(&family.children[k].1);
        }
        k = k + 1;
    }
    None
}

/// Where `e` first sits in `list`.
pub fn position(list: &Vec<u64>, e: u64) -> (r: Option<usize>)
    ensures
        match r {
            Some(i) => position_in(list@, e) == Some(i as int),
            None => position_in(list@, e) is None,
        },
{
    let ghost s = list@;
    let mut k: usize = 0;
    while k < list.len()
        invariant
            k <= s.len(),
            s == list@,
            forall|j: int| 0 <= j < k ==> s[j] != e,
        decreases s.len() - k,
    {
        if list[k] == e {
            proof {
                lemma_position_at(s, e, k as int);
            }
            return Some(k);
        }
        k = k + 1;
    }
    proof {
        lemma_position_absent(s, e);
    }
    None
}

/// The first place `e` sits, where nothing before it is `e`.
proof fn lemma_position_at(s: Seq<u64>, e: u64, k: int)
    requires
        0 <= k < s.len(),
        s[k] == e,
        forall|j: int| 0 <= j < k ==> s[j] != e,
    ensures
        position_in(s, e) == Some(k),
    decreases k,
{
    if k > 0 {
        lemma_position_at(s.drop_first(), e, k - 1);
    }
}

/// Nowhere, where nothing is `e`.
proof fn lemma_position_absent(s: Seq<u64>, e: u64)
    requires
        forall|j: int| 0 <= j < s.len() ==> s[j] != e,
    ensures
        position_in(s, e) is None,
    decreases s.len(),
{
    if s.len() > 0 {
        lemma_position_absent(s.drop_first(), e);
    }
}

/// Whether `entity` is somewhere above `row`.
pub fn holds(family: &Family, entity: u64, row: u64) -> (r: bool)
    ensures
        r == is_above(family@.parents, entity, row),
{
    let ghost ps = family@.parents;
    let n = family.parents.len();
    let mut above = parent_of(family, row);
    let mut k: usize = 0;
    proof {
        reveal_with_fuel(ancestor, 2);
    }
    while k < n
        invariant
            0 <= k <= n,
            n == ps.len(),
            ps == family@.parents,
            above == ancestor(ps, row, (k + 1) as nat),
            forall|j: nat| 1 <= j <= k ==> ancestor(ps, row, j) != Some(entity),
        decreases n - k,
    {
        match above {
            Some(p) => {
                if p == entity {
                    return true;
                }
                above = parent_of(family, p);
            },
            None => {
                proof {
                    assert forall|j: nat| k + 1 <= j <= n + 1 implies ancestor(ps, row, j) is None by {
                        lemma_no_ancestor_past(ps, row, (k + 1) as nat, j);
                    }
                }
                return false;
            },
        }
        k = k + 1;
    }
    match above {
        Some(p) => p == entity,
        None => false,
    }
}

/// Past an entity with no ancestor `k` steps up, there is none further
/// up either.
proof fn lemma_no_ancestor_past(parents: Seq<(u64, u64)>, e: u64, k: nat, j: nat)
    requires
        k <= j,
        ancestor(parents, e, k) is None,
    ensures
        ancestor(parents, e, j) is None,
    decreases j - k,
{
    if k < j {
        lemma_no_ancestor_past(parents, e, k, (j - 1) as nat);
    }
}

/// `index` as the list will be when `dragged` is put back into the
/// children `list` of its new parent: moving within one parent takes
/// the entity out first, so every slot after it shifts left, and a
/// place past the end is the end of the shortened list. One arriving
/// from another parent is added first and only then placed, so its
/// list is never short. A parent with no children yet puts it first.
pub open spec fn settled(list: Option<Seq<u64>>, dragged: u64, index: int) -> int {
    match list {
        None => 0,
        Some(l) => match position_in(l, dragged) {
            None => index,
            Some(current) => {
                let shifted = if index > current {
                    index - 1
                } else {
                    index
                };
                if shifted <= l.len() - 1 {
                    shifted
                } else {
                    l.len() - 1
                }
            },
        },
    }
}

/// `index` as the list will be when `dragged` is put back.
pub fn settle(family: &Family, parent: u64, dragged: u64, index: usize) -> (r: usize)
    ensures
        r == settled(children_in(family@.children, parent), dragged, index as int),
{
    let Some(list) = children_of(family, parent) else {
        return 0;
    };
    let Some(current) = position(list, dragged) else {
        return index;
    };
    proof {
        lemma_position_within(list@, dragged);
    }
    let shifted = if index > current {
        index - 1
    } else {
        index
    };
    if shifted <= list.len() - 1 {
        shifted
    } else {
        list.len() - 1
    }
}

/// Where `e` sits lies within the list.
proof fn lemma_position_within(s: Seq<u64>, e: u64)
    requires
        position_in(s, e) is Some,
    ensures
        0 <= position_in(s, e).unwrap() < s.len(),
    decreases s.len(),
{
    if s[0] != e {
        lemma_position_within(s.drop_first(), e);
    }
}

/// The parent to put `dragged` under and where among its children,
/// aiming at `row` with `at`; `None` for a drop that would not hold:
/// onto itself, into its own subtree, or beside a row with no parent
/// or not among its parent's children.
pub open spec fn destination_of(family: FamilyV, dragged: u64, row: u64, at: At) -> Option<(u64, int)> {
    if dragged == row || is_above(family.parents, dragged, row) {
        None
    } else if at == At::Into {
        Some((row, settled(children_in(family.children, row), dragged, usize::MAX as int)))
    } else {
        match parent_in(family.parents, row) {
            None => None,
            Some(parent) => match children_in(family.children, parent) {
                None => None,
                Some(list) => match position_in(list, row) {
                    None => None,
                    Some(index) => {
                        let place = if at == At::After {
                            index + 1
                        } else {
                            index
                        };
                        Some((parent, settled(Some(list), dragged, place)))
                    },
                },
            },
        }
    }
}

/// An ancestor one step further up is the parent of the ancestor
/// below it.
proof fn lemma_ancestor_step(parents: Seq<(u64, u64)>, e: u64, p: u64, k: nat)
    requires
        parent_in(parents, e) == Some(p),
    ensures
        ancestor(parents, e, k + 1) == ancestor(parents, p, k),
    decreases k,
{
    reveal_with_fuel(ancestor, 2);
    if k > 0 {
        lemma_ancestor_step(parents, e, p, (k - 1) as nat);
    }
}

/// No drop puts a subject under itself: the parent it lands under is
/// neither the subject nor anything the subject holds (within as many
/// steps up as there are entities with a parent).
pub proof fn lemma_drop_keeps_tree(family: FamilyV, dragged: u64, row: u64, at: At)
    requires
        destination_of(family, dragged, row, at) is Some,
    ensures
        ({
            let parent = destination_of(family, dragged, row, at).unwrap().0;
            &&& parent != dragged
            &&& forall|k: nat|
                1 <= k <= family.parents.len() ==> #[trigger] ancestor(family.parents, parent, k)
                    != Some(dragged)
        }),
{
    let ps = family.parents;
    let parent = destination_of(family, dragged, row, at).unwrap().0;
    if at != At::Into {
        let p = parent_in(ps, row).unwrap();
        assert(p == parent);
        reveal_with_fuel(ancestor, 2);
        assert(ancestor(ps, row, 1) == Some(p));
        assert forall|k: nat| 1 <= k <= ps.len() implies #[trigger] ancestor(ps, parent, k) != Some(
            dragged,
        ) by {
            lemma_ancestor_step(ps, row, p, k);
            if ancestor(ps, parent, k) == Some(dragged) {
                assert(ancestor(ps, row, k + 1) == Some(dragged));
                assert(is_above(ps, dragged, row));
            }
        }
        if p == dragged {
            assert(is_above(ps, dragged, row));
        }
    } else {
        assert forall|k: nat| 1 <= k <= ps.len() implies #[trigger] ancestor(ps, parent, k) != Some(
            dragged,
        ) by {
            if ancestor(ps, parent, k) == Some(dragged) {
                assert(is_above(ps, dragged, row));
            }
        }
    }
}

/// The parent to put `dragged` under and where among its children,
/// aiming at `row` with `at`: into a row goes past the end of its
/// children, beside one goes before or after it in its parent's.
pub fn destination(family: &Family, dragged: u64, row: u64, at: At) -> (r: Option<(u64, usize)>)
    ensures
        match r {
            Some((p, i)) => destination_of(family@, dragged, row, at) == Some((p, i as int)),
            None => destination_of(family@, dragged, row, at) is None,
        },
{
    if dragged == row || holds(family, dragged, row) {
        return None;
    }
    match at {
        At::Into => Some((row, settle(family, row, dragged, usize::MAX))),
        _ => {
            let parent = parent_of(family, row)?;
            let list = children_of(family, parent)?;
            let index = position(list, row)?;
            proof {
                lemma_position_within(list@, row);
            }
            assert(index < list.len());
            let place = match at {
                At::After => index + 1,
                _ => index,
            };
            Some((parent, settle(family, parent, dragged, place)))
        },
    }
}

/// The head of a subject's id text: a whole id is unreadable, but two
/// subjects sharing a name still need telling apart. Eight characters.
pub open spec fn head_of(id_text: Seq<char>) -> Seq<char> {
    if id_text.len() <= 8 {
        id_text
    } else {
        id_text.take(8)
    }
}

/// The first eight characters of a subject's id text.
pub fn uid_head(id_text: &str) -> (r: String)
    ensures
        r@ == head_of(id_text@),
{
    let n = id_text.unicode_len();
    let end = if n <= 8 {
        n
    } else {
        8
    };
    let head = id_text.substring_char(0, end);
    assert(id_text@.subrange(0, n as int) =~= id_text@);
    String::from_str(head)
}

/// What a subject's row reads: its name, or else the head of its id,
/// or else a question mark.
pub open spec fn row_name_text(name: Option<Seq<char>>, id_text: Option<Seq<char>>) -> Seq<char> {
    match name {
        Some(n) => n,
        None => match id_text {
            Some(t) => head_of(t),
            None => seq!['?'],
        },
    }
}

/// What a subject's row reads.
pub fn row_name(name: Option<String>, id_text: Option<&str>) -> (r: String)
    ensures
        r@ == row_name_text(
            crate::scene::name_view(name),
            match id_text {
                Some(t) => Some(t@),
                None => None,
            },
        ),
{
    match name {
        Some(n) => n,
        None => match id_text {
            Some(t) => uid_head(t),
            None => {
                proof {
                    reveal_strlit("?");
                }
                String::from_str("?")
            },
        },
    }
}

/// What the scene's root needs, given how many there are.
#[derive(Clone, Copy, Debug, PartialEq, Eq, Structural)]
pub enum RootCheck {
    /// None yet: one is made, and every top-level subject moves under
    /// it.
    Make,
    /// Exactly one, as there should be.
    Fine,
    /// More than one, which is an error to report.
    TooMany,
}

/// What the scene's root needs, given how many there are.
pub fn root_check(roots: usize) -> (r: RootCheck)
    ensures
        roots == 0 ==> r == RootCheck::Make,
        roots == 1 ==> r == RootCheck::Fine,
        roots > 1 ==> r == RootCheck::TooMany,
{
    if roots > 1 {
        RootCheck::TooMany
    } else if roots == 0 {
        RootCheck::Make
    } else {
        RootCheck::Fine
    }
}

} // verus!
