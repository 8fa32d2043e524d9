//! What a cursor held over the timeline points at: the deepest block
//! whose content area it is in, and how far along that block's
//! children it has come. Whether a box holds the cursor is the
//! caller's to measure; these choose among the answers.

use vstd::prelude::*;

use crate::tree::{is_under, under};

verus! {

/// A laid-out box as a drop sees it: where it sits in the tree, whether
/// it is a block's, and whether the cursor is in its content area (a
/// block's header strip belongs to its parent).
pub struct Spot {
    pub path: Vec<usize>,
    pub is_block: bool,
    pub holds_cursor: bool,
}

/// Whether `spot` could take the drop: a block's box holding the
/// cursor, neither the dragged node nor inside it.
pub open spec fn can_host(spot: Spot, dragged: Seq<usize>) -> bool {
    spot.is_block && spot.holds_cursor && !is_under(spot.path@, dragged)
}

/// The deepest block that could take the drop of the node at
/// `dragged`: of the spots that could, the one with the longest path,
/// the last of them where several are as deep. `None` where none
/// could.
pub fn innermost_block(spots: &Vec<Spot>, dragged: &[usize]) -> (r: Option<Vec<usize>>)
    ensures
        r is None <==> forall|i: int| 0 <= i < spots@.len() ==> !can_host(#[trigger] spots@[i], dragged@),
        r is Some ==> exists|k: int|
            0 <= k < spots@.len() && can_host(spots@[k], dragged@) && r.unwrap()@ == spots@[k].path@
                && (forall|j: int|
                0 <= j < spots@.len() && can_host(#[trigger] spots@[j], dragged@) ==> spots@[j].path@.len()
                    <= spots@[k].path@.len()) && (forall|j: int|
                k < j < spots@.len() && can_host(#[trigger] spots@[j], dragged@) ==> spots@[j].path@.len()
                    < spots@[k].path@.len()),
{
    let mut best: Option<usize> = None;
    let mut i: usize = 0;
    while i < spots.len()
        invariant
            i <= spots@.len(),
            best is None ==> forall|j: int| 0 <= j < i ==> !can_host(#[trigger] spots@[j], dragged@),
            best is Some ==> ({
                let b = best.unwrap() as int;
                &&& b < i
                &&& can_host(spots@[b], dragged@)
                &&& forall|j: int|
                    0 <= j < i && can_host(#[trigger] spots@[j], dragged@) ==> spots@[j].path@.len()
                        <= spots@[b].path@.len()
                &&& forall|j: int|
                    b < j < i && can_host(#[trigger] spots@[j], dragged@) ==> spots@[j].path@.len()
                        < spots@[b].path@.len()
            }),
        decreases spots@.len() - i,
    {
        let spot = &spots[i];
        if spot.is_block && spot.holds_cursor && !under(&spot.path, dragged) {
            let deeper = match best {
                None => true,
                Some(b) => spot.path.len() >= spots[b].path.len(),
            };
            if deeper {
                best = Some(i);
            }
        }
        i = i + 1;
    }
    match best {
        None => None,
        Some(b) => Some(spots[b].path.clone()),
    }
}

/// How many of `flags` are set.
pub open spec fn count_set(flags: Seq<bool>) -> nat
    decreases flags.len(),
{
    if flags.len() == 0 {
        0
    } else {
        count_set(flags.drop_last()) + if flags.last() {
            1nat
        } else {
            0nat
        }
    }
}

/// Where a drop loose in a block, on none of its children, lands: past
/// every child whose middle the cursor has cleared. `past` says, child
/// by child, whether it has.
pub fn loose_index(past: &Vec<bool>) -> (r: usize)
    ensures
        r == count_set(past@),
{
    let mut n: usize = 0;
    let mut i: usize = 0;
    while i < past.len()
        invariant
            i <= past@.len(),
            n == count_set(past@.take(i as int)),
            n <= i,
        decreases past@.len() - i,
    {
        assert(past@.take(i + 1).drop_last() =~= past@.take(i as int));
        if past[i] {
            n = n + 1;
        }
        i = i + 1;
    }
    assert(past@.take(past@.len() as int) =~= past@);
    n
}

} // verus!
