//! The rows of the scene hierarchy panel: every scene entity, roots
//! first in the order of their ids, each followed depth first by the
//! scene entities under it, indented by how deep it sits.
//!
//! The scene is read as plain values: each scene entity with its id,
//! its parent, its children in order and its name. A child that is not
//! itself a scene entity is passed over, and so is all under it.

use vstd::prelude::*;
use vstd::relations::{sorted_by, total_ordering};
use vstd::string::*;

use crate::decimal::{digits, push_digits};

verus! {

/// A scene entity as the panel reads it: its id, which orders the
/// roots; the index an unnamed one is shown by; its parent, if it has
/// one; its children, in order, scene entities or not; and its name.
pub struct Listed {
    pub id: u64,
    pub index: u32,
    pub parent: Option<u64>,
    pub children: Vec<u64>,
    pub name: Option<String>,
}

/// A scene entity as plain values.
pub struct ListedV {
    pub id: u64,
    pub index: u32,
    pub parent: Option<u64>,
    pub children: Seq<u64>,
    pub name: Option<Seq<char>>,
}

impl View for Listed {
    type V = ListedV;

    open spec fn view(&self) -> ListedV {
        ListedV {
            id: self.id,
            index: self.index,
            parent: self.parent,
            children: self.children@,
            name: crate::scene::name_view(self.name),
        }
    }
}

/// The scene entities, as plain values.
pub open spec fn listed_view(es: Seq<Listed>) -> Seq<ListedV> {
    es.map_values(|e: Listed| e@)
}

/// One row of the panel: how deep its entity sits, and what it reads.
pub struct Row {
    pub depth: usize,
    pub name: String,
}

/// Rows, as plain values.
pub open spec fn rows_view(rows: Seq<Row>) -> Seq<(nat, Seq<char>)> {
    rows.map_values(|r: Row| (r.depth as nat, r.name@))
}

/// The first place, from `from` on, of the scene entity with id `id`.
pub open spec fn first_with(es: Seq<ListedV>, id: u64, from: nat) -> Option<nat>
    decreases es.len() - from,
{
    if from >= es.len() {
        None
    } else if es[from as int].id == id {
        Some(from)
    } else {
        first_with(es, id, from + 1)
    }
}

/// What an entity's row reads: its name, or `Entity` and its index.
pub open spec fn entity_label(e: ListedV) -> Seq<char> {
    match e.name {
        Some(n) => n,
        None => seq!['E', 'n', 't', 'i', 't', 'y', ' '] + digits(e.index as nat),
    }
}

/// The rows of the entity `id` and all the scene entities under it,
/// depth first, the entity at `depth`; none where `id` is not a scene
/// entity. `fuel` bounds how deep the walk goes: a hierarchy is a
/// forest, so from a root no chain of scene entities is longer than
/// the whole scene, and the walk is started with that much.
pub open spec fn subtree_rows(es: Seq<ListedV>, id: u64, depth: nat, fuel: nat) -> Seq<(nat, Seq<char>)>
    decreases fuel, 0nat,
{
    if fuel == 0 {
        Seq::empty()
    } else {
        match first_with(es, id, 0) {
            None => Seq::empty(),
            Some(k) => seq![(depth, entity_label(es[k as int]))] + kids_rows(
                es,
                es[k as int].children,
                depth + 1,
                (fuel - 1) as nat,
            ),
        }
    }
}

/// The rows under each of `kids` in turn.
pub open spec fn kids_rows(es: Seq<ListedV>, kids: Seq<u64>, depth: nat, fuel: nat) -> Seq<(nat, Seq<char>)>
    decreases fuel, kids.len() + 1,
{
    if kids.len() == 0 {
        Seq::empty()
    } else {
        kids_rows(es, kids.drop_last(), depth, fuel) + subtree_rows(es, kids.last(), depth, fuel)
    }
}

/// Whether `e` is a root: it has no parent, or its parent is not a
/// scene entity.
pub open spec fn is_root(es: Seq<ListedV>, e: ListedV) -> bool {
    match e.parent {
        None => true,
        Some(p) => first_with(es, p, 0) is None,
    }
}

/// The ids of the roots among the first `n` entities, in their order.
pub open spec fn root_ids(es: Seq<ListedV>, n: nat) -> Seq<u64>
    decreases n,
{
    if n == 0 || n > es.len() {
        Seq::empty()
    } else {
        root_ids(es, (n - 1) as nat) + if is_root(es, es[n - 1]) {
            seq![es[n - 1].id]
        } else {
            Seq::<u64>::empty()
        }
    }
}

/// Ids in ascending order.
pub open spec fn ascending() -> spec_fn(u64, u64) -> bool {
    |a: u64, b: u64| a <= b
}

/// Every row of the panel: the roots in ascending order of id, each
/// with all under it.
pub open spec fn hierarchy_rows(es: Seq<ListedV>) -> Seq<(nat, Seq<char>)> {
    kids_rows(es, root_ids(es, es.len()).sort_by(ascending()), 0, es.len())
}

/// The place of the scene entity with id `id`.
fn find(es: &Vec<Listed>, id: u64) -> (r: Option<usize>)
    ensures
        match r {
            Some(k) => first_with(listed_view(es@), id, 0) == Some(k as nat) && k < es@.len(),
            None => first_with(listed_view(es@), id, 0) is None,
        },
{
    let ghost v = listed_view(es@);
    let mut i: usize = 0;
    while i < es.len()
        invariant
            i <= es@.len(),
            v == listed_view(es@),
            v.len() == es@.len(),
            first_with(v, id, 0) == first_with(v, id, i as nat),
        decreases es@.len() - i,
    {
        assert(v[i as int].id == es@[i as int].id);
        if es[i].id == id {
            return Some(i);
        }
        i = i + 1;
    }
    None
}

/// What an entity's row reads.
fn label_of(e: &Listed) -> (r: String)
    ensures
        r@ == entity_label(e@),
{
    match &e.name {
        Some(n) => n.clone(),
        None => {
            proof {
                reveal_strlit("Entity ");
            }
            let mut s = String::from_str("Entity ");
            push_digits(&mut s, e.index as u128);
            s
        },
    }
}

/// Appends the rows of `id` and all under it.
fn push_subtree(es: &Vec<Listed>, id: u64, depth: usize, fuel: usize, out: &mut Vec<Row>)
    requires
        depth + fuel <= es@.len(),
    ensures
        rows_view(final(out)@) == rows_view(old(out)@) + subtree_rows(listed_view(es@), id, depth as nat, fuel as nat),
    decreases fuel, 0nat,
{
    let ghost v = listed_view(es@);
    let ghost start = rows_view(out@);
    if fuel == 0 {
        assert(rows_view(out@) =~= start + Seq::empty());
        return;
    }
    match find(es, id) {
        None => {
            assert(rows_view(out@) =~= start + Seq::empty());
        },
        Some(k) => {
            let name = label_of(&es[k]);
            out.push(Row { depth, name });
            let ghost head = seq![(depth as nat, entity_label(v[k as int]))];
            assert(rows_view(out@) =~= start + head);
            let kids = &es[k].children;
            let count = es.len();
            let mut i: usize = 0;
            assert(kids@.take(0) =~= Seq::<u64>::empty());
            while i < kids.len()
                invariant
                    i <= kids@.len(),
                    depth + fuel <= es@.len(),
                    count == es@.len(),
                    fuel >= 1,
                    kids@ == v[k as int].children,
                    v == listed_view(es@),
                    rows_view(out@) == start + head + kids_rows(
                        v,
                        kids@.take(i as int),
                        (depth + 1) as nat,
                        (fuel - 1) as nat,
                    ),
                decreases kids@.len() - i,
            {
                let ghost before = rows_view(out@);
                push_subtree(es, kids[i], depth + 1, fuel - 1, out);
                assert(kids@.take(i + 1).drop_last() =~= kids@.take(i as int));
                assert(kids@.take(i + 1).last() == kids@[i as int]);
                assert(rows_view(out@) =~= start + head + kids_rows(
                    v,
                    kids@.take(i + 1),
                    (depth + 1) as nat,
                    (fuel - 1) as nat,
                ));
                i = i + 1;
            }
            assert(kids@.take(kids@.len() as int) =~= kids@);
            assert(rows_view(out@) =~= start + (head + kids_rows(
                v,
                v[k as int].children,
                (depth + 1) as nat,
                (fuel - 1) as nat,
            )));
        },
    }
}

/// The ids of the roots, in the entities' order.
fn roots(es: &Vec<Listed>) -> (r: Vec<u64>)
    ensures
        r@ == root_ids(listed_view(es@), es@.len()),
{
    let ghost v = listed_view(es@);
    let mut out: Vec<u64> = Vec::new();
    let mut i: usize = 0;
    while i < es.len()
        invariant
            i <= es@.len(),
            v == listed_view(es@),
            v.len() == es@.len(),
            out@ == root_ids(v, i as nat),
        decreases es@.len() - i,
    {
        let root = match es[i].parent {
            None => true,
            Some(p) => find(es, p).is_none(),
        };
        assert(v[i as int] == es@[i as int]@);
        let ghost before = out@;
        if root {
            out.push(es[i].id);
            assert(out@ =~= before + seq![v[i as int].id]);
        } else {
            assert(out@ =~= before + Seq::<u64>::empty());
        }
        i = i + 1;
    }
    out
}

/// `ids` in ascending order.
fn sort_ids(ids: Vec<u64>) -> (r: Vec<u64>)
    ensures
        sorted_by(r@, ascending()),
        r@.to_multiset() == ids@.to_multiset(),
{
    broadcast use vstd::seq_lib::group_to_multiset_ensures;
    broadcast use vstd::multiset::group_multiset_axioms;
    let mut rest = ids;
    let mut out: Vec<u64> = Vec::new();
    while rest.len() > 0
        invariant
            sorted_by(out@, ascending()),
            forall|i: int, j: int| 0 <= i < out@.len() && 0 <= j < rest@.len() ==> out@[i] <= rest@[j],
            out@.to_multiset().add(rest@.to_multiset()) == ids@.to_multiset(),
        decreases rest@.len(),
    {
        let mut m: usize = 0;
        let mut j: usize = 1;
        while j < rest.len()
            invariant
                1 <= j <= rest@.len(),
                m < rest@.len(),
                forall|t: int| 0 <= t < j ==> rest@[m as int] <= rest@[t],
            decreases rest@.len() - j,
        {
            if rest[j] < rest[m] {
                m = j;
            }
            j = j + 1;
        }
        let ghost old_rest = rest@;
        let ghost old_out = out@;
        let x = rest.remove(m);
        out.push(x);
        assert(rest@ =~= old_rest.remove(m as int));
        assert(out@ =~= old_out.push(x));
        assert(x == old_rest[m as int]);
        proof {
            old_out.to_multiset_ensures();
            old_rest.to_multiset_ensures();
        }
        assert(old_out.push(x).to_multiset() =~= old_out.to_multiset().insert(x));
        assert(old_rest.remove(m as int).to_multiset() =~= old_rest.to_multiset().remove(x));
        assert(out@.to_multiset() =~= old_out.to_multiset().insert(x));
        assert(rest@.to_multiset() =~= old_rest.to_multiset().remove(x));
        assert(old_rest.to_multiset().count(x) > 0) by {
            assert(old_rest.contains(x));
        }
        assert(out@.to_multiset().add(rest@.to_multiset()) =~= old_out.to_multiset().add(
            old_rest.to_multiset(),
        ));
        assert forall|a: int, b: int| 0 <= a < b < out@.len() implies #[trigger] (ascending())(out@[a], out@[b]) by {
            if b < out@.len() - 1 {
                assert((ascending())(old_out[a], old_out[b]));
            } else {
                assert(out@[b] == old_rest[m as int]);
            }
        }
        assert forall|a: int, b: int| 0 <= a < out@.len() && 0 <= b < rest@.len() implies out@[a] <= rest@[b] by {
            if b < m {
                assert(rest@[b] == old_rest[b]);
            } else {
                assert(rest@[b] == old_rest[b + 1]);
            }
        }
    }
    assert(rest@ =~= Seq::<u64>::empty());
    assert(out@.to_multiset().add(rest@.to_multiset()) =~= out@.to_multiset());
    out
}

/// Ascending order is a total order.
proof fn lemma_ascending_total()
    ensures
        total_ordering(ascending()),
{
}

/// Every row of the hierarchy panel: each root, in ascending order of
/// id, followed depth first by the scene entities under it.
pub fn collect_rows(es: &Vec<Listed>) -> (r: Vec<Row>)
    ensures
        rows_view(r@) == hierarchy_rows(listed_view(es@)),
{
    let ghost v = listed_view(es@);
    let ids = roots(es);
    let ghost all = ids@;
    let ids = sort_ids(ids);
    proof {
        lemma_ascending_total();
        all.lemma_sort_by_ensures(ascending());
        vstd::seq_lib::lemma_sorted_unique(ids@, all.sort_by(ascending()), ascending());
    }
    let n = es.len();
    let mut out: Vec<Row> = Vec::new();
    let mut i: usize = 0;
    assert(ids@.take(0) =~= Seq::<u64>::empty());
    assert(rows_view(out@) =~= Seq::<(nat, Seq<char>)>::empty());
    while i < ids.len()
        invariant
            i <= ids@.len(),
            n == es@.len(),
            v == listed_view(es@),
            rows_view(out@) == kids_rows(v, ids@.take(i as int), 0, n as nat),
        decreases ids@.len() - i,
    {
        push_subtree(es, ids[i], 0, n, &mut out);
        assert(ids@.take(i + 1).drop_last() =~= ids@.take(i as int));
        assert(ids@.take(i + 1).last() == ids@[i as int]);
        i = i + 1;
    }
    assert(ids@.take(ids@.len() as int) =~= ids@);
    out
}

} // verus!
