//! The asset panel's bookmarked folders, and which of the folders it
//! lists were left open.
//!
//! A path is its components in order, each a name; one path starts
//! with another when the other's components are its first ones.

use vstd::prelude::*;

verus! {

/// A path's components, as plain values.
pub open spec fn path_of(p: Vec<String>) -> Seq<Seq<char>> {
    p@.map_values(|c: String| c@)
}

/// Paths, as plain values.
pub open spec fn paths_of(ps: Seq<Vec<String>>) -> Seq<Seq<Seq<char>>> {
    ps.map_values(|p: Vec<String>| path_of(p))
}

/// Whether `p` is `q` or lies under it.
pub open spec fn starts_with(p: Seq<Seq<char>>, q: Seq<Seq<char>>) -> bool {
    q.len() <= p.len() && p.take(q.len() as int) == q
}

/// Whether `p` is `q` or lies under it.
pub fn path_starts_with(p: &Vec<String>, q: &Vec<String>) -> (r: bool)
    ensures
        r == starts_with(path_of(*p), path_of(*q)),
{
    let ghost ps = path_of(*p);
    let ghost qs = path_of(*q);
    if q.len() > p.len() {
        return false;
    }
    let mut k: usize = 0;
    while k < q.len()
        invariant
            k <= q@.len() <= p@.len(),
            ps == path_of(*p),
            qs == path_of(*q),
            ps.len() == p@.len(),
            qs.len() == q@.len(),
            forall|j: int| 0 <= j < k ==> ps[j] == qs[j],
        decreases q@.len() - k,
    {
        assert(ps[k as int] == p@[k as int]@);
        assert(qs[k as int] == q@[k as int]@);
        if !(p[k] == q[k]) {
            assert(ps.take(qs.len() as int)[k as int] != qs[k as int]);
            return false;
        }
        k = k + 1;
    }
    assert(ps.take(qs.len() as int) =~= qs);
    true
}

/// Whether `p` and `q` are the same path.
pub fn same_path(p: &Vec<String>, q: &Vec<String>) -> (r: bool)
    ensures
        r == (path_of(*p) == path_of(*q)),
{
    let r = p.len() == q.len() && path_starts_with(p, q);
    proof {
        assert(path_of(*p).len() == p@.len());
        assert(path_of(*q).len() == q@.len());
        if path_of(*p) == path_of(*q) {
            assert(p@.len() == q@.len());
            assert(path_of(*p).take(path_of(*q).len() as int) =~= path_of(*q));
        }
        if p.len() == q.len() && r {
            assert(path_of(*p).take(path_of(*q).len() as int) =~= path_of(*p));
        }
    }
    r
}

/// Whether a folder nests with one of the bookmarks, in either
/// direction.
pub open spec fn nests_with(bookmarks: Seq<Seq<Seq<char>>>, folder: Seq<Seq<char>>) -> bool {
    exists|i: int|
        0 <= i < bookmarks.len() && (starts_with(folder, #[trigger] bookmarks[i]) || starts_with(
            bookmarks[i],
            folder,
        ))
}

/// Bookmarks `folder`, unless it nests with a bookmark already there
/// in either direction, since the row it would open into and the row
/// already showing it would both list the same files. Whether it was
/// added.
pub fn add_bookmark(bookmarks: &mut Vec<Vec<String>>, folder: Vec<String>) -> (r: bool)
    ensures
        r == !nests_with(paths_of(old(bookmarks)@), path_of(folder)),
        r ==> paths_of(final(bookmarks)@) == paths_of(old(bookmarks)@).push(path_of(folder)),
        !r ==> final(bookmarks)@ == old(bookmarks)@,
{
    let ghost bs = paths_of(bookmarks@);
    let mut k: usize = 0;
    while k < bookmarks.len()
        invariant
            k <= bookmarks@.len(),
            bs == paths_of(bookmarks@),
            bs.len() == bookmarks@.len(),
            forall|j: int|
                0 <= j < k ==> !(starts_with(path_of(folder), #[trigger] bs[j]) || starts_with(
                    bs[j],
                    path_of(folder),
                )),
        decreases bookmarks@.len() - k,
    {
        assert(bs[k as int] == path_of(bookmarks@[k as int]));
        if path_starts_with(&folder, &bookmarks[k]) || path_starts_with(&bookmarks[k], &folder) {
            return false;
        }
        k = k + 1;
    }
    bookmarks.push(folder);
    assert(paths_of(bookmarks@) =~= bs.push(path_of(folder)));
    true
}

/// Whether no two bookmarks nest, one under the other: no folder's
/// files are listed under two rows.
pub open spec fn apart(bookmarks: Seq<Seq<Seq<char>>>) -> bool {
    forall|i: int, j: int|
        0 <= i < bookmarks.len() && 0 <= j < bookmarks.len() && i != j ==> !starts_with(
            #[trigger] bookmarks[i],
            #[trigger] bookmarks[j],
        )
}

/// Bookmarks kept apart stay apart when one is added the way
/// `add_bookmark` adds it, or one is removed.
pub proof fn lemma_bookmarks_stay_apart(bookmarks: Seq<Seq<Seq<char>>>, folder: Seq<Seq<char>>, index: int)
    requires
        apart(bookmarks),
    ensures
        !nests_with(bookmarks, folder) ==> apart(bookmarks.push(folder)),
        0 <= index < bookmarks.len() ==> apart(bookmarks.remove(index)),
{
    let pushed = bookmarks.push(folder);
    if !nests_with(bookmarks, folder) {
        assert forall|i: int, j: int|
            0 <= i < pushed.len() && 0 <= j < pushed.len() && i != j implies !starts_with(
            #[trigger] pushed[i],
            #[trigger] pushed[j],
        ) by {
            if i == bookmarks.len() {
                assert(pushed[j] == bookmarks[j]);
            } else if j == bookmarks.len() {
                assert(pushed[i] == bookmarks[i]);
            } else {
                assert(pushed[i] == bookmarks[i] && pushed[j] == bookmarks[j]);
            }
        }
    }
    if 0 <= index < bookmarks.len() {
        let removed = bookmarks.remove(index);
        assert forall|i: int, j: int|
            0 <= i < removed.len() && 0 <= j < removed.len() && i != j implies !starts_with(
            #[trigger] removed[i],
            #[trigger] removed[j],
        ) by {
            let a = if i < index { i } else { i + 1 };
            let b = if j < index { j } else { j + 1 };
            assert(removed[i] == bookmarks[a] && removed[j] == bookmarks[b]);
        }
    }
}

/// The paths of `ps` that are not under `root`, in their order.
pub open spec fn outside_of(ps: Seq<Seq<Seq<char>>>, root: Seq<Seq<char>>) -> Seq<Seq<Seq<char>>> {
    ps.filter(|p: Seq<Seq<char>>| !starts_with(p, root))
}

/// Filtering one more element keeps it exactly when it passes.
proof fn lemma_filter_step(s: Seq<Seq<Seq<char>>>, pred: spec_fn(Seq<Seq<char>>) -> bool, k: int)
    requires
        0 <= k < s.len(),
    ensures
        s.take(k + 1).filter(pred) == if pred(s[k]) {
            s.take(k).filter(pred).push(s[k])
        } else {
            s.take(k).filter(pred)
        },
{
    reveal(Seq::filter);
    assert(s.take(k + 1).drop_last() =~= s.take(k));
    assert(s.take(k + 1).last() == s[k]);
}

/// Filtering keeps a list free of repeats.
pub proof fn lemma_filter_distinct(s: Seq<Seq<Seq<char>>>, pred: spec_fn(Seq<Seq<char>>) -> bool)
    requires
        s.no_duplicates(),
    ensures
        s.filter(pred).no_duplicates(),
    decreases s.len(),
{
    reveal(Seq::filter);
    if s.len() > 0 {
        let d = s.drop_last();
        assert(forall|i: int| 0 <= i < d.len() ==> d[i] == s[i]);
        lemma_filter_distinct(d, pred);
        if pred(s.last()) {
            let f = d.filter(pred);
            if f.contains(s.last()) {
                d.lemma_filter_contains_rev(pred, s.last());
                let k = choose|k: int| 0 <= k < d.len() && d[k] == s.last();
                assert(s[k] == s[s.len() - 1]);
            }
            let g = f.push(s.last());
            assert forall|i: int, j: int| 0 <= i < g.len() && 0 <= j < g.len() && i != j implies g[i] != g[j] by {
                if i < f.len() && j < f.len() {
                    assert(g[i] == f[i] && g[j] == f[j]);
                } else if i < f.len() {
                    assert(g[i] == f[i]);
                    assert(f.contains(f[i]));
                } else {
                    assert(g[j] == f[j]);
                    assert(f.contains(f[j]));
                }
            }
        }
    }
}

/// Keeps the paths of `ps` not under `root`.
fn drop_under(rest: &Vec<Vec<String>>, root: &Vec<String>) -> (r: Vec<Vec<String>>)
    ensures
        paths_of(r@) == outside_of(paths_of(rest@), path_of(*root)),
{
    let ghost all = paths_of(rest@);
    let ghost rv = path_of(*root);
    let mut out: Vec<Vec<String>> = Vec::new();
    let mut k: usize = 0;
    let n = rest.len();
    assert(all.take(0).filter(|p: Seq<Seq<char>>| !starts_with(p, rv)) =~= Seq::<Seq<Seq<char>>>::empty());
    while k < n
        invariant
            k <= n,
            n == rest@.len(),
            all == paths_of(rest@),
            rv == path_of(*root),
            paths_of(out@) == all.take(k as int).filter(|p: Seq<Seq<char>>| !starts_with(p, rv)),
        decreases n - k,
    {
        let p = rest[k].clone();
        assert(path_of(p) == all[k as int]) by {
            assert(p@ == rest@[k as int]@);
            assert(path_of(p) =~= path_of(rest@[k as int]));
        }
        proof {
            lemma_filter_step(all, |p: Seq<Seq<char>>| !starts_with(p, rv), k as int);
        }
        if !path_starts_with(&p, root) {
            let ghost before = out@;
            out.push(p);
            assert(paths_of(out@) =~= paths_of(before).push(all[k as int]));
        }
        k = k + 1;
    }
    assert(all.take(n as int) =~= all);
    out
}

/// Drops the bookmark at `index`, and every open-folder key under the
/// folder it named: nothing else would ever name those again. An index
/// past the end drops nothing.
pub fn remove_bookmark(bookmarks: &mut Vec<Vec<String>>, open: &mut Vec<Vec<String>>, index: usize)
    ensures
        index >= old(bookmarks)@.len() ==> final(bookmarks)@ == old(bookmarks)@ && final(open)@ == old(
            open,
        )@,
        index < old(bookmarks)@.len() ==> paths_of(final(bookmarks)@) == paths_of(
            old(bookmarks)@,
        ).remove(index as int),
        index < old(bookmarks)@.len() ==> paths_of(final(open)@) == outside_of(
            paths_of(old(open)@),
            path_of(old(bookmarks)@[index as int]),
        ),
        paths_of(old(open)@).no_duplicates() ==> paths_of(final(open)@).no_duplicates(),
{
    if index >= bookmarks.len() {
        return;
    }
    let ghost before = bookmarks@;
    let removed = bookmarks.remove(index);
    assert(paths_of(bookmarks@) =~= paths_of(before).remove(index as int));
    let kept = drop_under(open, &removed);
    proof {
        if paths_of(open@).no_duplicates() {
            lemma_filter_distinct(paths_of(open@), |p: Seq<Seq<char>>| !starts_with(p, path_of(removed)));
        }
    }
    *open = kept;
}

/// Whether `p` is a direct child of `parent`.
pub open spec fn child_of(p: Seq<Seq<char>>, parent: Seq<Seq<char>>) -> bool {
    p.len() == parent.len() + 1 && p.take(parent.len() as int) == parent
}

/// Whether `p` lies under an open folder that is a direct child of
/// `parent` no longer among `current`.
pub open spec fn under_stale(
    open: Seq<Seq<Seq<char>>>,
    parent: Seq<Seq<char>>,
    current: Seq<Seq<Seq<char>>>,
    p: Seq<Seq<char>>,
) -> bool {
    exists|i: int|
        0 <= i < open.len() && child_of(#[trigger] open[i], parent) && !current.contains(open[i])
            && starts_with(p, open[i])
}

/// Whether `path` is listed in `current`: for the open-folder list,
/// whether that folder is open.
pub fn listed(current: &Vec<Vec<String>>, path: &Vec<String>) -> (r: bool)
    ensures
        r == paths_of(current@).contains(path_of(*path)),
{
    let ghost cv = paths_of(current@);
    let mut c: usize = 0;
    while c < current.len()
        invariant
            c <= current@.len(),
            cv == paths_of(current@),
            cv.len() == current@.len(),
            forall|j: int| 0 <= j < c ==> cv[j] != path_of(*path),
        decreases current@.len() - c,
    {
        assert(cv[c as int] == path_of(current@[c as int]));
        if same_path(&current[c], path) {
            return true;
        }
        c = c + 1;
    }
    false
}

/// Whether `p` lies under an open folder that is a direct child of
/// `parent` no longer among `current`.
fn is_under_stale(open: &Vec<Vec<String>>, parent: &Vec<String>, current: &Vec<Vec<String>>, p: &Vec<String>) -> (r: bool)
    ensures
        r == under_stale(paths_of(open@), path_of(*parent), paths_of(current@), path_of(*p)),
{
    let ghost all = paths_of(open@);
    let mut k: usize = 0;
    while k < open.len()
        invariant
            k <= open@.len(),
            all == paths_of(open@),
            all.len() == open@.len(),
            forall|i: int|
                0 <= i < k ==> !(child_of(#[trigger] all[i], path_of(*parent)) && !paths_of(
                    current@,
                ).contains(all[i]) && starts_with(path_of(*p), all[i])),
        decreases open@.len() - k,
    {
        let q = &open[k];
        assert(path_of(*q) == all[k as int]);
        if q.len() > parent.len() && q.len() - 1 == parent.len() && path_starts_with(q, parent) && !listed(current, q)
            && path_starts_with(p, q) {
            return true;
        }
        k = k + 1;
    }
    false
}

/// Drops every open-folder key under a direct child of `parent` that
/// `current`, the folder's entries as it lists them now, no longer
/// holds: such a key would otherwise sit unread forever.
pub fn prune_fold_state(open: &mut Vec<Vec<String>>, parent: &Vec<String>, current: &Vec<Vec<String>>)
    ensures
        paths_of(final(open)@) == paths_of(old(open)@).filter(
            |p: Seq<Seq<char>>| !under_stale(paths_of(old(open)@), path_of(*parent), paths_of(current@), p),
        ),
        paths_of(old(open)@).no_duplicates() ==> paths_of(final(open)@).no_duplicates(),
{
    let ghost all = paths_of(open@);
    let ghost keep = |p: Seq<Seq<char>>| !under_stale(all, path_of(*parent), paths_of(current@), p);
    let mut out: Vec<Vec<String>> = Vec::new();
    let mut k: usize = 0;
    assert(all.take(0).filter(keep) =~= Seq::<Seq<Seq<char>>>::empty());
    while k < open.len()
        invariant
            k <= open@.len(),
            all == paths_of(open@),
            all.len() == open@.len(),
            keep == (|p: Seq<Seq<char>>| !under_stale(all, path_of(*parent), paths_of(current@), p)),
            paths_of(out@) == all.take(k as int).filter(keep),
        decreases open@.len() - k,
    {
        let p = open[k].clone();
        assert(path_of(p) == all[k as int]) by {
            assert(path_of(p) =~= path_of(open@[k as int]));
        }
        proof {
            lemma_filter_step(all, keep, k as int);
        }
        if !is_under_stale(open, parent, current, &p) {
            let ghost before = out@;
            out.push(p);
            assert(paths_of(out@) =~= paths_of(before).push(all[k as int]));
        }
        k = k + 1;
    }
    assert(all.take(open@.len() as int) =~= all);
    proof {
        if all.no_duplicates() {
            lemma_filter_distinct(all, keep);
        }
    }
    *open = out;
}

/// Opens or closes the folder at `path` in the open-folder list:
/// opening adds it at the end unless it is already open, closing takes
/// it out. A list without repeats stays so.
pub fn set_folder_open(open: &mut Vec<Vec<String>>, path: Vec<String>, is_open: bool)
    ensures
        is_open ==> paths_of(final(open)@) == if paths_of(old(open)@).contains(path_of(path)) {
            paths_of(old(open)@)
        } else {
            paths_of(old(open)@).push(path_of(path))
        },
        !is_open ==> paths_of(final(open)@) == paths_of(old(open)@).filter(
            |p: Seq<Seq<char>>| p != path_of(path),
        ),
        paths_of(old(open)@).no_duplicates() ==> paths_of(final(open)@).no_duplicates(),
{
    let ghost all = paths_of(open@);
    if is_open {
        if !listed(open, &path) {
            open.push(path);
            assert(paths_of(open@) =~= all.push(path_of(path)));
            proof {
                let g = all.push(path_of(path));
                assert forall|i: int, j: int|
                    all.no_duplicates() && 0 <= i < g.len() && 0 <= j < g.len() && i != j implies g[i] != g[j] by {
                    if i < all.len() && j < all.len() {
                        assert(g[i] == all[i] && g[j] == all[j]);
                    } else if i < all.len() {
                        assert(g[i] == all[i]);
                        assert(all.contains(all[i]));
                    } else {
                        assert(g[j] == all[j]);
                        assert(all.contains(all[j]));
                    }
                }
            }
        }
        return;
    }
    let ghost pv = path_of(path);
    let ghost keep = |p: Seq<Seq<char>>| p != pv;
    let mut out: Vec<Vec<String>> = Vec::new();
    let mut k: usize = 0;
    assert(all.take(0).filter(keep) =~= Seq::<Seq<Seq<char>>>::empty());
    while k < open.len()
        invariant
            k <= open@.len(),
            all == paths_of(open@),
            all.len() == open@.len(),
            pv == path_of(path),
            keep == (|p: Seq<Seq<char>>| p != pv),
            paths_of(out@) == all.take(k as int).filter(keep),
        decreases open@.len() - k,
    {
        let p = open[k].clone();
        assert(path_of(p) == all[k as int]) by {
            assert(path_of(p) =~= path_of(open@[k as int]));
        }
        proof {
            lemma_filter_step(all, keep, k as int);
        }
        if !same_path(&p, &path) {
            let ghost before = out@;
            out.push(p);
            assert(paths_of(out@) =~= paths_of(before).push(all[k as int]));
        }
        k = k + 1;
    }
    assert(all.take(open@.len() as int) =~= all);
    proof {
        if all.no_duplicates() {
            lemma_filter_distinct(all, keep);
        }
    }
    *open = out;
}

} // verus!
