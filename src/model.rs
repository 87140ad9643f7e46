use vstd::prelude::*;
use crate::path::{has_prefix, is_name, parent_of, root_component, wf_components};
use crate::remap::{lemma_remap_keeps_relative_path, remapped};
use crate::parallel::{parallel_job, JobView};
use crate::step::{copy_create_plan, move_file_plan, StepView};
use crate::tree::sequential_step;

verus! {

/// What a path of a file system holds: a directory, or a file with its bytes.
pub enum Node {
    Dir,
    File(Seq<u8>),
}

/// A file system as a map from paths (as components) to what they hold.
pub type Tree = Map<Seq<Seq<u8>>, Node>;

/// Whether `p` is a directory of `t`.
pub open spec fn is_dir_at(t: Tree, p: Seq<Seq<u8>>) -> bool {
    t.contains_key(p) && t[p] == Node::Dir
}

/// What a step does to a file system, as the platform documents it, with the bytes it
/// reports: a directory is created alone only inside an existing directory and where
/// nothing stands yet; with its ancestors, as `make_dirs` says; a file's bytes are copied
/// into an existing directory, where no directory stands, and their number is reported; a
/// file is removed; a directory is removed with everything under it. `None` where the
/// step fails.
pub open spec fn apply_step(t: Tree, s: StepView) -> Option<(Tree, int)> {
    match s {
        StepView::CreateDir(p) => create_dir_at(t, p),
        StepView::Copy(src, dst) => copy_file_to(t, src, dst),
        StepView::CreateDirAll(p) => match make_dirs(t, p) {
            Some(t1) => Some((t1, 0)),
            None => None,
        },
        StepView::RemoveFile(p) => remove_file_at(t, p),
        StepView::RemoveDirAll(p) => remove_tree_at(t, p),
    }
}

/// Creating the directory `p` alone: its parent must be a directory, and nothing may stand
/// at `p` yet.
pub open spec fn create_dir_at(t: Tree, p: Seq<Seq<u8>>) -> Option<(Tree, int)> {
    match parent_of(p) {
        Some(q) => if is_dir_at(t, q) && !t.contains_key(p) {
            Some((t.insert(p, Node::Dir), 0))
        } else {
            None
        },
        None => None,
    }
}

/// Copying the file `src` to `dst`: the parent of `dst` must be a directory and `dst` no
/// directory; the bytes of `src` are reported.
pub open spec fn copy_file_to(t: Tree, src: Seq<Seq<u8>>, dst: Seq<Seq<u8>>) -> Option<(Tree, int)> {
    match parent_of(dst) {
        Some(q) => if t.contains_key(src) && t[src] is File && is_dir_at(t, q) && !is_dir_at(
            t,
            dst,
        ) {
            Some((t.insert(dst, t[src]), t[src]->File_0.len() as int))
        } else {
            None
        },
        None => None,
    }
}

/// Removing the file `p`.
pub open spec fn remove_file_at(t: Tree, p: Seq<Seq<u8>>) -> Option<(Tree, int)> {
    if t.contains_key(p) && t[p] is File {
        Some((t.remove(p), 0))
    } else {
        None
    }
}

/// Removing the directory `p` and everything under it.
pub open spec fn remove_tree_at(t: Tree, p: Seq<Seq<u8>>) -> Option<(Tree, int)> {
    if is_dir_at(t, p) {
        Some(
            (
                Map::new(
                    |k: Seq<Seq<u8>>| t.contains_key(k) && !has_prefix(k, p),
                    |k: Seq<Seq<u8>>| t[k],
                ),
                0,
            ),
        )
    } else {
        None
    }
}

/// Steps performed in order from the file system `t`, up to the first failure: the file
/// system they leave and the bytes they report in all.
pub open spec fn run_steps(t: Tree, steps: Seq<StepView>) -> Option<(Tree, int)>
    decreases steps.len(),
{
    if steps.len() == 0 {
        Some((t, 0))
    } else {
        match run_steps(t, steps.drop_last()) {
            Some((t1, n1)) => match apply_step(t1, steps.last()) {
                Some((t2, n2)) => Some((t2, n1 + n2)),
                None => None,
            },
            None => None,
        }
    }
}

/// Whether `entries` walks the tree at `from` in `t` as the walk does: the root first,
/// each entry once with its kind, every parent before its children, nothing left out.
pub open spec fn is_walk(t: Tree, from: Seq<Seq<u8>>, entries: Seq<(Seq<Seq<u8>>, bool)>) -> bool {
    &&& entries.len() > 0
    &&& entries[0] == (from, true)
    &&& forall|i: int|
        0 <= i < entries.len() ==> {
            let (p, d) = #[trigger] entries[i];
            wf_components(p) && has_prefix(p, from) && t.contains_key(p) && (t[p] == Node::Dir)
                == d
        }
    &&& forall|i: int, j: int| 0 <= i < j < entries.len() ==> entries[i].0 != entries[j].0
    &&& forall|i: int|
        0 < i < entries.len() ==> exists|j: int|
            0 <= j < i && entries[j].1 && parent_of(#[trigger] entries[i].0) == Some(entries[j].0)
    &&& forall|k: Seq<Seq<u8>>|
        t.contains_key(k) && has_prefix(k, from) ==> exists|i: int|
            0 <= i < entries.len() && (#[trigger] entries[i]).0 == k
}

/// The bytes of the files among the first `n` entries.
pub open spec fn file_bytes(t: Tree, entries: Seq<(Seq<Seq<u8>>, bool)>, n: int) -> int
    decreases n,
{
    if n <= 0 {
        0
    } else {
        file_bytes(t, entries, n - 1) + if entries[n - 1].1 {
            0
        } else {
            t[entries[n - 1].0]->File_0.len() as int
        }
    }
}

/// The file system after the first `n` entries were replicated: each one's destination
/// holds what the entry holds.
pub open spec fn mirrored(
    t: Tree,
    from: Seq<Seq<u8>>,
    to: Seq<Seq<u8>>,
    entries: Seq<(Seq<Seq<u8>>, bool)>,
    n: int,
) -> Tree
    decreases n,
{
    if n <= 0 {
        t
    } else {
        mirrored(t, from, to, entries, n - 1).insert(
            to + entries[n - 1].0.subrange(from.len() as int, entries[n - 1].0.len() as int),
            t[entries[n - 1].0],
        )
    }
}

/// The destination of a path under a non-empty root: the destination root, then the rest.
proof fn lemma_dest(from: Seq<Seq<u8>>, to: Seq<Seq<u8>>, p: Seq<Seq<u8>>)
    requires
        wf_components(from),
        wf_components(to),
        wf_components(p),
        from.len() > 0,
        to.len() > 0,
        has_prefix(p, from),
    ensures
        remapped(from, to, p) == Some(to + p.subrange(from.len() as int, p.len() as int)),
        has_prefix(to + p.subrange(from.len() as int, p.len() as int), to),
{
    lemma_remap_keeps_relative_path(from, to, p);
    let rel = p.subrange(from.len() as int, p.len() as int);
    if rel.len() > 0 {
        assert(rel[0] == p[from.len() as int]);
        assert(is_name(rel[0]));
        assert(rel[0] != root_component()) by {
            if rel[0] == root_component() {
                assert(rel[0][0] == 47u8);
            }
        }
    }
    assert((to + rel).subrange(0, to.len() as int) =~= to);
}

/// Where the copy of a path under `from` lands under `to`.
pub open spec fn dest_of(from: Seq<Seq<u8>>, to: Seq<Seq<u8>>, p: Seq<Seq<u8>>) -> Seq<Seq<u8>> {
    to + p.subrange(from.len() as int, p.len() as int)
}

/// Two different paths under the same root land at different places.
proof fn lemma_dest_injective(
    from: Seq<Seq<u8>>,
    to: Seq<Seq<u8>>,
    p1: Seq<Seq<u8>>,
    p2: Seq<Seq<u8>>,
)
    requires
        has_prefix(p1, from),
        has_prefix(p2, from),
        p1 != p2,
    ensures
        dest_of(from, to, p1) != dest_of(from, to, p2),
{
    let r1 = p1.subrange(from.len() as int, p1.len() as int);
    let r2 = p2.subrange(from.len() as int, p2.len() as int);
    assert(p1 =~= from + r1);
    assert(p2 =~= from + r2);
    if dest_of(from, to, p1) == dest_of(from, to, p2) {
        assert(r1 =~= dest_of(from, to, p1).subrange(to.len() as int, dest_of(from, to, p1).len() as int));
        assert(r2 =~= dest_of(from, to, p2).subrange(to.len() as int, dest_of(from, to, p2).len() as int));
    }
}

/// Whether `t` is a tree: every path is well formed and stands in a directory; the
/// working directory is the empty path, and the root has no parent.
pub open spec fn is_tree(t: Tree) -> bool {
    forall|k: Seq<Seq<u8>>| #[trigger] t.contains_key(k) ==> wf_components(k) && in_dir(t, k)
}

/// Whether the parent of `k`, where it has one, is a directory of `t`.
pub open spec fn in_dir(t: Tree, k: Seq<Seq<u8>>) -> bool {
    match parent_of(k) {
        Some(q) => is_dir_at(t, q),
        None => true,
    }
}

/// What a tree copy on the model requires: `t` is a tree; the roots are well formed and
/// the source root is not empty; the destination does not exist and its parent is a
/// directory; `entries` is a walk of the source.
pub open spec fn copy_setting(
    t: Tree,
    from: Seq<Seq<u8>>,
    to: Seq<Seq<u8>>,
    entries: Seq<(Seq<Seq<u8>>, bool)>,
) -> bool {
    &&& is_tree(t)
    &&& wf_components(from)
    &&& wf_components(to)
    &&& from.len() > 0
    &&& !t.contains_key(to)
    &&& parent_of(to) matches Some(q) && is_dir_at(t, q)
    &&& is_walk(t, from, entries)
}

/// In a tree, every ancestor of a path that stands in it is a directory.
proof fn lemma_ancestors_are_dirs(t: Tree, k: Seq<Seq<u8>>)
    requires
        is_tree(t),
        t.contains_key(k),
    ensures
        forall|a: Seq<Seq<u8>>|
            1 <= a.len() < k.len() && #[trigger] has_prefix(k, a) ==> is_dir_at(t, a),
    decreases k.len(),
{
    if k.len() >= 2 {
        assert(wf_components(k) && in_dir(t, k));
        let p = k.drop_last();
        assert(is_name(k[k.len() - 1]));
        assert(k.last() != root_component()) by {
            if k.last() == root_component() {
                assert(k.last()[0] == 47u8);
            }
        }
        assert(is_dir_at(t, p));
        lemma_ancestors_are_dirs(t, p);
        assert forall|a: Seq<Seq<u8>>| 1 <= a.len() < k.len() && #[trigger] has_prefix(k, a) implies is_dir_at(
            t,
            a,
        ) by {
            if a.len() == p.len() {
                assert(a =~= p);
            } else {
                assert(p.subrange(0, a.len() as int) =~= k.subrange(0, a.len() as int));
                assert(has_prefix(p, a));
            }
        }
    }
}

/// The requirements of a tree copy give what the proofs use: nothing stands under a
/// destination that does not exist, and its ancestors are directories.
proof fn lemma_setting(
    t: Tree,
    from: Seq<Seq<u8>>,
    to: Seq<Seq<u8>>,
    entries: Seq<(Seq<Seq<u8>>, bool)>,
)
    requires
        copy_setting(t, from, to, entries),
    ensures
        mirror_setting(t, from, to, entries),
        mirror_parallel_setting(t, from, to, entries),
{
    assert forall|k: Seq<Seq<u8>>| t.contains_key(k) implies !has_prefix(k, to) by {
        if has_prefix(k, to) {
            lemma_ancestors_are_dirs(t, k);
            if k.len() == to.len() {
                assert(k =~= to);
            } else {
                assert(to.subrange(0, to.len() as int) =~= to);
                assert(has_prefix(k, to));
            }
        }
    }
    let q = parent_of(to)->Some_0;
    lemma_ancestors_are_dirs(t, q);
    assert forall|a: Seq<Seq<u8>>| 1 <= a.len() < to.len() && has_prefix(to, a) implies is_dir_at(t, a) by {
        if a.len() == q.len() {
            assert(a =~= q);
        } else {
            assert(q.subrange(0, a.len() as int) =~= to.subrange(0, a.len() as int));
            assert(has_prefix(q, a));
        }
    }
}

/// The requirements of a tree copy as the proofs below use them: well-formed non-empty
/// roots, nothing at or under the destination, whose parent is a directory, and a walk of
/// the source. `copy_setting` gives them.
pub open spec fn mirror_setting(
    t: Tree,
    from: Seq<Seq<u8>>,
    to: Seq<Seq<u8>>,
    entries: Seq<(Seq<Seq<u8>>, bool)>,
) -> bool {
    &&& wf_components(from)
    &&& wf_components(to)
    &&& from.len() > 0
    &&& parent_of(to) matches Some(q) && is_dir_at(t, q)
    &&& forall|k: Seq<Seq<u8>>| t.contains_key(k) ==> !has_prefix(k, to)
    &&& is_walk(t, from, entries)
}

/// After `n` entries were replicated, the file system is the old one outside `to`, and
/// under `to` holds exactly the destinations of those entries, each with what its entry
/// holds.
proof fn lemma_mirrored(
    t: Tree,
    from: Seq<Seq<u8>>,
    to: Seq<Seq<u8>>,
    entries: Seq<(Seq<Seq<u8>>, bool)>,
    n: int,
)
    requires
        mirror_setting(t, from, to, entries),
        0 <= n <= entries.len(),
    ensures
        forall|k: Seq<Seq<u8>>|
            !has_prefix(k, to) ==> (mirrored(t, from, to, entries, n).contains_key(k)
                == t.contains_key(k) && (t.contains_key(k) ==> mirrored(
                t,
                from,
                to,
                entries,
                n,
            )[k] == t[k])),
        forall|j: int|
            0 <= j < n ==> mirrored(t, from, to, entries, n).contains_key(
                #[trigger] dest_of(from, to, entries[j].0),
            ) && mirrored(t, from, to, entries, n)[dest_of(from, to, entries[j].0)]
                == t[entries[j].0],
        forall|k: Seq<Seq<u8>>|
            has_prefix(k, to) && #[trigger] mirrored(t, from, to, entries, n).contains_key(k)
                ==> exists|j: int| 0 <= j < n && dest_of(from, to, entries[j].0) == k,
    decreases n,
{
    if n > 0 {
        lemma_mirrored(t, from, to, entries, n - 1);
        let p = entries[n - 1].0;
        assert(wf_components(p) && has_prefix(p, from)) by {
            let _ = entries[n - 1];
        }
        lemma_dest(from, to, p);
        let d = dest_of(from, to, p);
        let m0 = mirrored(t, from, to, entries, n - 1);
        let m1 = mirrored(t, from, to, entries, n);
        assert(m1 == m0.insert(d, t[p]));
        assert forall|j: int| 0 <= j < n implies m1.contains_key(
            #[trigger] dest_of(from, to, entries[j].0),
        ) && m1[dest_of(from, to, entries[j].0)] == t[entries[j].0] by {
            if j < n - 1 {
                let _ = entries[j];
                lemma_dest_injective(from, to, entries[j].0, p);
            }
        }
        assert forall|k: Seq<Seq<u8>>|
            has_prefix(k, to) && #[trigger] m1.contains_key(k) implies exists|j: int|
            0 <= j < n && dest_of(from, to, entries[j].0) == k by {
            if k != d {
                assert(m0.contains_key(k));
                let j = choose|j: int| 0 <= j < n - 1 && dest_of(from, to, entries[j].0) == k;
                assert(0 <= j < n && dest_of(from, to, entries[j].0) == k);
            } else {
                assert(dest_of(from, to, entries[n - 1].0) == k);
            }
        }
    }
}

/// The entries of a walk other than the root lie strictly below it, and their parent is
/// an earlier directory entry.
proof fn lemma_below_root(
    t: Tree,
    from: Seq<Seq<u8>>,
    entries: Seq<(Seq<Seq<u8>>, bool)>,
    i: int,
) -> (j: int)
    requires
        is_walk(t, from, entries),
        from.len() > 0,
        0 < i < entries.len(),
    ensures
        0 <= j < i,
        entries[j].1,
        entries[i].0.len() > from.len(),
        entries[j].0 == entries[i].0.drop_last(),
        parent_of(entries[i].0) == Some(entries[j].0),
{
    let p = entries[i].0;
    lemma_entry(t, from, entries, i);
    let j = choose|j: int| 0 <= j < i && entries[j].1 && parent_of(entries[i].0) == Some(entries[j].0);
    assert(entries[0].0 != p);
    assert(p.len() > from.len()) by {
        if p.len() == from.len() {
            assert(p =~= p.subrange(0, from.len() as int));
        }
    }
    j
}

/// The destination of an entry below the root has the destination of the entry's parent
/// as its parent.
proof fn lemma_dest_parent(from: Seq<Seq<u8>>, to: Seq<Seq<u8>>, p: Seq<Seq<u8>>)
    requires
        wf_components(p),
        has_prefix(p, from),
        from.len() > 0,
        p.len() > from.len(),
    ensures
        parent_of(dest_of(from, to, p)) == Some(dest_of(from, to, p.drop_last())),
{
    let d = dest_of(from, to, p);
    assert(is_name(d.last())) by {
        assert(d.last() == p.last());
        assert(p.last() == p[p.len() - 1]);
    }
    assert(d.last() != root_component()) by {
        if d.last() == root_component() {
            assert(d.last()[0] == 47u8);
        }
    }
    assert(dest_of(from, to, p.drop_last()) =~= d.drop_last());
}

/// The destination of the next entry is free: nothing stood under `to`, and each earlier
/// entry landed elsewhere.
proof fn lemma_dest_free(
    t: Tree,
    from: Seq<Seq<u8>>,
    to: Seq<Seq<u8>>,
    entries: Seq<(Seq<Seq<u8>>, bool)>,
    i: int,
)
    requires
        mirror_setting(t, from, to, entries),
        0 <= i < entries.len(),
    ensures
        !mirrored(t, from, to, entries, i).contains_key(dest_of(from, to, entries[i].0)),
{
    lemma_mirrored(t, from, to, entries, i);
    lemma_entry(t, from, entries, i);
    let p = entries[i].0;
    lemma_dest(from, to, p);
    let d = dest_of(from, to, p);
    if mirrored(t, from, to, entries, i).contains_key(d) {
        let j = choose|j: int| 0 <= j < i && dest_of(from, to, entries[j].0) == d;
        lemma_entry(t, from, entries, j);
        lemma_dest_injective(from, to, entries[j].0, p);
    }
}

/// The directory that will hold the next entry's destination exists already.
proof fn lemma_dest_parent_is_dir(
    t: Tree,
    from: Seq<Seq<u8>>,
    to: Seq<Seq<u8>>,
    entries: Seq<(Seq<Seq<u8>>, bool)>,
    i: int,
)
    requires
        mirror_setting(t, from, to, entries),
        0 <= i < entries.len(),
    ensures
        parent_of(dest_of(from, to, entries[i].0)) matches Some(pd) && is_dir_at(
            mirrored(t, from, to, entries, i),
            pd,
        ),
{
    lemma_mirrored(t, from, to, entries, i);
    let p = entries[i].0;
    lemma_entry(t, from, entries, i);
    let d = dest_of(from, to, p);
    if i == 0 {
        let q = parent_of(to)->Some_0;
        assert(p.subrange(from.len() as int, p.len() as int) =~= Seq::<Seq<u8>>::empty());
        assert(d =~= to);
        assert(!has_prefix(q, to));
    } else {
        let j = lemma_below_root(t, from, entries, i);
        lemma_entry(t, from, entries, j);
        lemma_dest_parent(from, to, p);
    }
}

/// Replicating the next entry succeeds and leaves the file system with one more entry
/// mirrored.
proof fn lemma_step(
    t: Tree,
    from: Seq<Seq<u8>>,
    to: Seq<Seq<u8>>,
    entries: Seq<(Seq<Seq<u8>>, bool)>,
    i: int,
)
    requires
        mirror_setting(t, from, to, entries),
        0 <= i < entries.len(),
    ensures
        sequential_step(from, to, entries[i].0, entries[i].1) matches Some(s) && apply_step(
            mirrored(t, from, to, entries, i),
            s,
        ) == Some(
            (
                mirrored(t, from, to, entries, i + 1),
                file_bytes(t, entries, i + 1) - file_bytes(t, entries, i),
            ),
        ),
{
    let (p, is_dir) = entries[i];
    lemma_entry(t, from, entries, i);
    lemma_dest(from, to, p);
    lemma_dest_free(t, from, to, entries, i);
    lemma_dest_parent_is_dir(t, from, to, entries, i);
    lemma_mirrored(t, from, to, entries, i);
    let d = dest_of(from, to, p);
    let m0 = mirrored(t, from, to, entries, i);
    let m1 = mirrored(t, from, to, entries, i + 1);
    assert(m1 == m0.insert(d, t[p]));
    if is_dir {
        assert(create_dir_at(m0, d) == Some((m1, 0int)));
    } else {
        assert(!has_prefix(p, to));
        assert(t[p] is File) by {
            if t[p] is Dir {
                assert(t[p] == Node::Dir);
            }
        }
        assert(m0.contains_key(p) && m0[p] == t[p]);
        assert(copy_file_to(m0, p, d) == Some((m1, t[p]->File_0.len() as int)));
    }
}

/// The steps of a tree copy, performed in order on the model, replicate each entry in turn.
proof fn lemma_run(
    t: Tree,
    from: Seq<Seq<u8>>,
    to: Seq<Seq<u8>>,
    entries: Seq<(Seq<Seq<u8>>, bool)>,
    steps: Seq<StepView>,
    n: int,
)
    requires
        mirror_setting(t, from, to, entries),
        steps.len() == entries.len(),
        forall|i: int|
            0 <= i < entries.len() ==> sequential_step(from, to, entries[i].0, entries[i].1)
                == Some(#[trigger] steps[i]),
        0 <= n <= entries.len(),
    ensures
        run_steps(t, steps.subrange(0, n)) == Some(
            (mirrored(t, from, to, entries, n), file_bytes(t, entries, n)),
        ),
    decreases n,
{
    if n == 0 {
        assert(steps.subrange(0, 0) =~= Seq::<StepView>::empty());
    } else {
        lemma_run(t, from, to, entries, steps, n - 1);
        assert(steps.subrange(0, n).drop_last() =~= steps.subrange(0, n - 1));
        assert(steps.subrange(0, n).last() == steps[n - 1]);
        lemma_step(t, from, to, entries, n - 1);
    }
}

/// A tree copied one entry at a time, on a file system that behaves as documented, is
/// mirrored exactly: every step succeeds; each path under `from` has a copy at the same
/// place under `to` that holds the same thing; nothing else stands under `to`; nothing
/// outside `to` changes; and the bytes reported are those of the files of the tree.
pub proof fn lemma_copy_tree_mirrors(
    t: Tree,
    from: Seq<Seq<u8>>,
    to: Seq<Seq<u8>>,
    entries: Seq<(Seq<Seq<u8>>, bool)>,
    steps: Seq<StepView>,
)
    requires
        copy_setting(t, from, to, entries),
        steps.len() == entries.len(),
        forall|i: int|
            0 <= i < entries.len() ==> sequential_step(from, to, entries[i].0, entries[i].1)
                == Some(#[trigger] steps[i]),
    ensures
        run_steps(t, steps) matches Some((t2, bytes)) && {
            &&& bytes == file_bytes(t, entries, entries.len() as int)
            &&& forall|k: Seq<Seq<u8>>|
                t.contains_key(k) && has_prefix(k, from) ==> (remapped(from, to, k) matches Some(
                    c,
                ) && t2.contains_key(c) && t2[c] == t[k])
            &&& forall|c: Seq<Seq<u8>>|
                #[trigger] t2.contains_key(c) && has_prefix(c, to) ==> exists|k: Seq<Seq<u8>>|
                    t.contains_key(k) && has_prefix(k, from) && remapped(from, to, k) == Some(c)
            &&& forall|k: Seq<Seq<u8>>|
                !has_prefix(k, to) ==> t2.contains_key(k) == t.contains_key(k) && (
                t.contains_key(k) ==> t2[k] == t[k])
        },
{
    lemma_setting(t, from, to, entries);
    let n = entries.len() as int;
    lemma_run(t, from, to, entries, steps, n);
    lemma_mirrored(t, from, to, entries, n);
    assert(steps.subrange(0, n) =~= steps);
    let t2 = mirrored(t, from, to, entries, n);
    assert forall|k: Seq<Seq<u8>>| t.contains_key(k) && has_prefix(k, from) implies (remapped(
        from,
        to,
        k,
    ) matches Some(c) && t2.contains_key(c) && t2[c] == t[k]) by {
        let i = choose|i: int| 0 <= i < entries.len() && (#[trigger] entries[i]).0 == k;
        lemma_dest(from, to, k);
        assert(t2.contains_key(dest_of(from, to, entries[i].0)));
    }
    assert forall|c: Seq<Seq<u8>>| #[trigger] t2.contains_key(c) && has_prefix(c, to) implies exists|
        k: Seq<Seq<u8>>,
    | t.contains_key(k) && has_prefix(k, from) && remapped(from, to, k) == Some(c) by {
        let j = choose|j: int| 0 <= j < n && dest_of(from, to, entries[j].0) == c;
        let _ = entries[j];
        lemma_dest(from, to, entries[j].0);
    }
}

/// Whether `a` is a non-empty prefix of `p`: `p` itself or one of its ancestors.
pub open spec fn is_ancestor_or_self(a: Seq<Seq<u8>>, p: Seq<Seq<u8>>) -> bool {
    1 <= a.len() && has_prefix(p, a)
}

/// What creating `p` with each missing ancestor does to a file system, as the platform
/// documents it: every ancestor that is missing becomes a directory, and one that exists
/// already is no error unless it is not a directory.
pub open spec fn make_dirs(t: Tree, p: Seq<Seq<u8>>) -> Option<Tree> {
    if forall|a: Seq<Seq<u8>>| is_ancestor_or_self(a, p) && #[trigger] t.contains_key(a) ==> t[a]
        == Node::Dir {
        Some(
            Map::new(
                |a: Seq<Seq<u8>>| t.contains_key(a) || is_ancestor_or_self(a, p),
                |a: Seq<Seq<u8>>|
                    if t.contains_key(a) {
                        t[a]
                    } else {
                        Node::Dir
                    },
            ),
        )
    } else {
        None
    }
}

/// What a job of a parallel copy does to a file system: a directory is created with its
/// missing ancestors; a file's bytes are copied once the directory that will hold it was
/// made sure of. `None` where the job fails.
pub open spec fn apply_job(t: Tree, j: JobView) -> Option<Tree> {
    match j {
        JobView::MakeDirAll(p) => make_dirs(t, p),
        JobView::CopyCreate(src, dst) => match parent_of(dst) {
            Some(pd) => match make_dirs(t, pd) {
                Some(t1) => if t1.contains_key(src) && t1[src] is File && !is_dir_at(t1, dst) {
                    Some(t1.insert(dst, t1[src]))
                } else {
                    None
                },
                None => None,
            },
            None => None,
        },
    }
}

/// Jobs performed one after another from the file system `t`, up to the first failure.
pub open spec fn run_jobs(t: Tree, jobs: Seq<JobView>) -> Option<Tree>
    decreases jobs.len(),
{
    if jobs.len() == 0 {
        Some(t)
    } else {
        match run_jobs(t, jobs.drop_last()) {
            Some(t1) => apply_job(t1, jobs.last()),
            None => None,
        }
    }
}

/// Every prefix of an entry that is at least as long as the root is an entry too, and a
/// directory where it is shorter than the entry.
proof fn lemma_walk_prefix(
    t: Tree,
    from: Seq<Seq<u8>>,
    entries: Seq<(Seq<Seq<u8>>, bool)>,
    s: int,
    y: Seq<Seq<u8>>,
)
    requires
        is_walk(t, from, entries),
        0 <= s < entries.len(),
        from.len() <= y.len(),
        has_prefix(entries[s].0, y),
    ensures
        exists|i: int|
            0 <= i < entries.len() && (#[trigger] entries[i]).0 == y && (y.len()
                < entries[s].0.len() ==> entries[i].1),
    decreases s,
{
    let p = entries[s].0;
    let _ = entries[s];
    if y.len() == p.len() {
        assert(y =~= p);
        assert(entries[s].0 == y);
    } else if s == 0 {
        assert(p == from);
        assert(false);
    } else {
        let j = choose|j: int| 0 <= j < s && entries[j].1 && parent_of(entries[s].0) == Some(
            entries[j].0,
        );
        let _ = entries[j];
        assert(entries[j].0 == p.drop_last());
        assert(has_prefix(entries[j].0, y)) by {
            assert(p.drop_last().subrange(0, y.len() as int) =~= p.subrange(0, y.len() as int));
        }
        if y.len() == p.len() - 1 {
            assert(y =~= entries[j].0);
        } else {
            lemma_walk_prefix(t, from, entries, j, y);
        }
    }
}

/// The non-empty prefixes of a destination: ancestors of `to`, or destinations of prefixes
/// of the entry.
proof fn lemma_dest_prefix(
    from: Seq<Seq<u8>>,
    to: Seq<Seq<u8>>,
    p: Seq<Seq<u8>>,
    y: Seq<Seq<u8>>,
)
    requires
        has_prefix(p, from),
        is_ancestor_or_self(y, dest_of(from, to, p)),
    ensures
        y.len() < to.len() ==> has_prefix(to, y) && !has_prefix(y, to),
        y.len() >= to.len() ==> has_prefix(y, to) && {
            let z = p.subrange(0, from.len() + y.len() - to.len());
            &&& has_prefix(z, from)
            &&& has_prefix(p, z)
            &&& y == dest_of(from, to, z)
        },
{
    let d = dest_of(from, to, p);
    if y.len() < to.len() {
        assert(to.subrange(0, y.len() as int) =~= d.subrange(0, y.len() as int));
    } else {
        let z = p.subrange(0, from.len() + y.len() - to.len());
        assert(d.subrange(0, y.len() as int) == y);
        assert(d.subrange(0, to.len() as int) =~= to);
        assert(y.subrange(0, to.len() as int) =~= d.subrange(0, to.len() as int));
        assert(has_prefix(y, to));
        assert(z.subrange(0, from.len() as int) =~= p.subrange(0, from.len() as int));
        assert(p.subrange(0, z.len() as int) =~= z);
        assert(y =~= dest_of(from, to, z));
    }
}

/// The destination of a prefix of an entry is a prefix of the entry's destination.
proof fn lemma_prefix_dest(from: Seq<Seq<u8>>, to: Seq<Seq<u8>>, p: Seq<Seq<u8>>, a: Seq<Seq<u8>>)
    requires
        to.len() > 0,
        has_prefix(a, from),
        has_prefix(p, a),
    ensures
        is_ancestor_or_self(dest_of(from, to, a), dest_of(from, to, p)),
{
    assert(dest_of(from, to, p).subrange(0, dest_of(from, to, a).len() as int) =~= dest_of(
        from,
        to,
        a,
    ));
}

/// Whether entry `i` was replicated by the jobs of the entries `done`: it is one of them,
/// or an ancestor of one.
pub open spec fn covered(entries: Seq<(Seq<Seq<u8>>, bool)>, done: Seq<int>, i: int) -> bool {
    exists|s: int| 0 <= s < done.len() && has_prefix(#[trigger] entries[done[s]].0, entries[i].0)
}

/// The file system after the jobs of the entries `done` ran, in whatever order: the old
/// one outside `to`, and under `to` exactly the destinations of the entries they
/// replicated, each with what its entry holds.
pub open spec fn partly_mirrored(
    st: Tree,
    t: Tree,
    from: Seq<Seq<u8>>,
    to: Seq<Seq<u8>>,
    entries: Seq<(Seq<Seq<u8>>, bool)>,
    done: Seq<int>,
) -> bool {
    &&& forall|x: Seq<Seq<u8>>|
        !has_prefix(x, to) ==> (#[trigger] st.contains_key(x) == t.contains_key(x) && (
        t.contains_key(x) ==> st[x] == t[x]))
    &&& forall|x: Seq<Seq<u8>>|
        has_prefix(x, to) && #[trigger] st.contains_key(x) ==> exists|i: int|
            0 <= i < entries.len() && covered(entries, done, i) && dest_of(from, to, entries[i].0)
                == x
    &&& forall|i: int|
        0 <= i < entries.len() && covered(entries, done, i) ==> st.contains_key(
            #[trigger] dest_of(from, to, entries[i].0),
        ) && st[dest_of(from, to, entries[i].0)] == t[entries[i].0]
}

/// What the proofs of a parallel copy use beyond a sequential one: every ancestor of `to`
/// is a directory already, so that creating ancestors touches nothing outside `to`.
/// `copy_setting` gives it.
pub open spec fn mirror_parallel_setting(
    t: Tree,
    from: Seq<Seq<u8>>,
    to: Seq<Seq<u8>>,
    entries: Seq<(Seq<Seq<u8>>, bool)>,
) -> bool {
    &&& mirror_setting(t, from, to, entries)
    &&& forall|a: Seq<Seq<u8>>|
        1 <= a.len() < to.len() && has_prefix(to, a) ==> is_dir_at(t, a)
}

/// Two entries with the same path are the same entry.
proof fn lemma_same_entry(
    t: Tree,
    from: Seq<Seq<u8>>,
    entries: Seq<(Seq<Seq<u8>>, bool)>,
    i: int,
    k: int,
)
    requires
        is_walk(t, from, entries),
        0 <= i < entries.len(),
        0 <= k < entries.len(),
        entries[i].0 == entries[k].0,
    ensures
        i == k,
{
    if i < k {
        assert(entries[i].0 != entries[k].0);
    } else if k < i {
        assert(entries[k].0 != entries[i].0);
    }
}

/// An entry's path lies under the root and in the tree, with the entry's kind.
proof fn lemma_entry(t: Tree, from: Seq<Seq<u8>>, entries: Seq<(Seq<Seq<u8>>, bool)>, i: int)
    requires
        is_walk(t, from, entries),
        0 <= i < entries.len(),
    ensures
        wf_components(entries[i].0),
        has_prefix(entries[i].0, from),
        t.contains_key(entries[i].0),
        (t[entries[i].0] == Node::Dir) == entries[i].1,
{
    let _ = entries[i];
}

/// Creating the destination of a directory entry with its missing ancestors succeeds and
/// replicates that entry and its ancestors.
proof fn lemma_make_dirs(
    t: Tree,
    from: Seq<Seq<u8>>,
    to: Seq<Seq<u8>>,
    entries: Seq<(Seq<Seq<u8>>, bool)>,
    st: Tree,
    done: Seq<int>,
    j: int,
)
    requires
        mirror_parallel_setting(t, from, to, entries),
        partly_mirrored(st, t, from, to, entries, done),
        0 <= j < entries.len(),
        entries[j].1,
    ensures
        make_dirs(st, dest_of(from, to, entries[j].0)) matches Some(st1) && partly_mirrored(
            st1,
            t,
            from,
            to,
            entries,
            done.push(j),
        ),
{
    let pj = entries[j].0;
    lemma_entry(t, from, entries, j);
    let d = dest_of(from, to, pj);
    let done1 = done.push(j);
    // Entry `i` whose path is a prefix of `pj` is a directory.
    assert forall|i: int| 0 <= i < entries.len() && has_prefix(pj, #[trigger] entries[i].0) implies t[entries[i].0]
        == Node::Dir by {
        lemma_entry(t, from, entries, i);
        if entries[i].0.len() < pj.len() {
            lemma_walk_prefix(t, from, entries, j, entries[i].0);
            let i2 = choose|i2: int| 0 <= i2 < entries.len() && (#[trigger] entries[i2]).0 == entries[i].0 && (
            entries[i].0.len() < pj.len() ==> entries[i2].1);
            lemma_entry(t, from, entries, i2);
        } else {
            assert(entries[i].0 =~= pj);
        }
    }
    // The jobs done before replicated each entry that they cover.
    assert forall|i: int| 0 <= i < entries.len() && covered(entries, done, i) implies covered(
        entries,
        done1,
        i,
    ) by {
        let s = choose|s: int| 0 <= s < done.len() && has_prefix(#[trigger] entries[done[s]].0, entries[i].0);
        assert(done1[s] == done[s]);
    }
    assert forall|i: int| 0 <= i < entries.len() && has_prefix(pj, entries[i].0) implies #[trigger] covered(
        entries,
        done1,
        i,
    ) by {
        assert(done1[done.len() as int] == j);
    }
    assert forall|a: Seq<Seq<u8>>| is_ancestor_or_self(a, d) && #[trigger] st.contains_key(a) implies st[a]
        == Node::Dir by {
        lemma_dest_prefix(from, to, pj, a);
        if a.len() < to.len() {
            assert(is_dir_at(t, a));
        } else {
            let z = pj.subrange(0, from.len() + a.len() - to.len());
            lemma_walk_prefix(t, from, entries, j, z);
            let i = choose|i: int| 0 <= i < entries.len() && (#[trigger] entries[i]).0 == z && (z.len()
                < pj.len() ==> entries[i].1);
            let i2 = choose|i2: int|
                0 <= i2 < entries.len() && covered(entries, done, i2) && dest_of(from, to, entries[i2].0) == a;
            lemma_entry(t, from, entries, i2);
            if entries[i2].0 != z {
                lemma_dest_injective(from, to, entries[i2].0, z);
            }
        }
    }
    let st1 = make_dirs(st, d)->Some_0;
    assert forall|x: Seq<Seq<u8>>| !has_prefix(x, to) implies (#[trigger] st1.contains_key(x)
        == t.contains_key(x) && (t.contains_key(x) ==> st1[x] == t[x])) by {
        if is_ancestor_or_self(x, d) {
            lemma_dest_prefix(from, to, pj, x);
            assert(is_dir_at(t, x));
        }
    }
    assert forall|x: Seq<Seq<u8>>| has_prefix(x, to) && #[trigger] st1.contains_key(x) implies exists|i: int|
        0 <= i < entries.len() && covered(entries, done1, i) && dest_of(from, to, entries[i].0) == x by {
        if st.contains_key(x) {
            let i = choose|i: int|
                0 <= i < entries.len() && covered(entries, done, i) && dest_of(from, to, entries[i].0) == x;
            assert(covered(entries, done1, i));
        } else {
            lemma_dest_prefix(from, to, pj, x);
            let z = pj.subrange(0, from.len() + x.len() - to.len());
            lemma_walk_prefix(t, from, entries, j, z);
            let i = choose|i: int| 0 <= i < entries.len() && (#[trigger] entries[i]).0 == z && (z.len()
                < pj.len() ==> entries[i].1);
            assert(covered(entries, done1, i));
        }
    }
    assert forall|i: int| 0 <= i < entries.len() && covered(entries, done1, i) implies st1.contains_key(
        #[trigger] dest_of(from, to, entries[i].0),
    ) && st1[dest_of(from, to, entries[i].0)] == t[entries[i].0] by {
        let di = dest_of(from, to, entries[i].0);
        lemma_entry(t, from, entries, i);
        if covered(entries, done, i) {
        } else {
            let s = choose|s: int| 0 <= s < done1.len() && has_prefix(#[trigger] entries[done1[s]].0, entries[i].0);
            if s < done.len() {
                assert(done1[s] == done[s]);
                assert(covered(entries, done, i));
            } else {
                assert(done1[s] == j);
                lemma_prefix_dest(from, to, pj, entries[i].0);
                if st.contains_key(di) {
                    lemma_dest_prefix(from, to, pj, di);
                    let i2 = choose|i2: int|
                        0 <= i2 < entries.len() && covered(entries, done, i2) && dest_of(from, to, entries[i2].0) == di;
                    lemma_entry(t, from, entries, i2);
                    if entries[i2].0 != entries[i].0 {
                        lemma_dest_injective(from, to, entries[i2].0, entries[i].0);
                    }
                }
            }
        }
    }
}

/// Any job of a parallel copy, run at any point, succeeds and replicates its entry and
/// the entry's ancestors.
proof fn lemma_apply_job(
    t: Tree,
    from: Seq<Seq<u8>>,
    to: Seq<Seq<u8>>,
    entries: Seq<(Seq<Seq<u8>>, bool)>,
    jobs: Seq<JobView>,
    st: Tree,
    done: Seq<int>,
    x: int,
)
    requires
        mirror_parallel_setting(t, from, to, entries),
        jobs.len() == entries.len(),
        forall|i: int|
            0 <= i < entries.len() ==> parallel_job(from, to, entries[i].0, entries[i].1) == Some(
                #[trigger] jobs[i],
            ),
        partly_mirrored(st, t, from, to, entries, done),
        0 <= x < entries.len(),
    ensures
        apply_job(st, jobs[x]) matches Some(st2) && partly_mirrored(
            st2,
            t,
            from,
            to,
            entries,
            done.push(x),
        ),
{
    let (px, is_dir) = entries[x];
    lemma_entry(t, from, entries, x);
    lemma_dest(from, to, px);
    let dx = dest_of(from, to, px);
    if is_dir {
        assert(jobs[x] == JobView::MakeDirAll(dx));
        lemma_make_dirs(t, from, to, entries, st, done, x);
        return;
    }
    assert(jobs[x] == JobView::CopyCreate(px, dx));
    assert(x != 0);
    let j = lemma_below_root(t, from, entries, x);
    lemma_entry(t, from, entries, j);
    let pj = entries[j].0;
    lemma_dest_parent(from, to, px);
    assert(parent_of(dx) == Some(dest_of(from, to, pj)));
    lemma_make_dirs(t, from, to, entries, st, done, j);
    let done1 = done.push(j);
    let done2 = done.push(x);
    let st1 = make_dirs(st, dest_of(from, to, pj))->Some_0;
    assert(!has_prefix(px, to));
    assert(st1.contains_key(px) && st1[px] == t[px]);
    assert(t[px] is File) by {
        if t[px] is Dir {
            assert(t[px] == Node::Dir);
        }
    }
    // A path that is a prefix of `px` is `px` or a prefix of its parent.
    assert forall|a: Seq<Seq<u8>>| has_prefix(px, a) && a != px implies has_prefix(pj, a) by {
        if a.len() == px.len() {
            assert(a =~= px);
        }
        assert(pj.subrange(0, a.len() as int) =~= px.subrange(0, a.len() as int));
    }
    assert(!is_dir_at(st1, dx)) by {
        if st1.contains_key(dx) {
            let i2 = choose|i2: int|
                0 <= i2 < entries.len() && covered(entries, done1, i2) && dest_of(from, to, entries[i2].0) == dx;
            lemma_entry(t, from, entries, i2);
            if entries[i2].0 != px {
                lemma_dest_injective(from, to, entries[i2].0, px);
            }
        }
    }
    let st2 = st1.insert(dx, t[px]);
    assert(apply_job(st, jobs[x]) == Some(st2));
    assert forall|i: int| 0 <= i < entries.len() && covered(entries, done1, i) implies #[trigger] covered(
        entries,
        done2,
        i,
    ) by {
        let s = choose|s: int| 0 <= s < done1.len() && has_prefix(#[trigger] entries[done1[s]].0, entries[i].0);
        if s < done.len() {
            assert(done2[s] == done1[s]);
        } else {
            assert(done2[done.len() as int] == x);
            assert(px.subrange(0, entries[i].0.len() as int) =~= pj.subrange(0, entries[i].0.len() as int));
        }
    }
    assert forall|x2: Seq<Seq<u8>>| !has_prefix(x2, to) implies (#[trigger] st2.contains_key(x2)
        == t.contains_key(x2) && (t.contains_key(x2) ==> st2[x2] == t[x2])) by {
        if x2 == dx {
            assert(has_prefix(dx, to));
        }
        assert(st1.contains_key(x2) == t.contains_key(x2));
    }
    assert forall|x2: Seq<Seq<u8>>| has_prefix(x2, to) && #[trigger] st2.contains_key(x2) implies exists|i: int|
        0 <= i < entries.len() && covered(entries, done2, i) && dest_of(from, to, entries[i].0) == x2 by {
        if x2 == dx {
            assert(done2[done.len() as int] == x);
            assert(px.subrange(0, px.len() as int) =~= px);
            assert(covered(entries, done2, x));
        } else {
            assert(st1.contains_key(x2));
            let i = choose|i: int|
                0 <= i < entries.len() && covered(entries, done1, i) && dest_of(from, to, entries[i].0) == x2;
            assert(covered(entries, done2, i));
        }
    }
    assert forall|i: int| 0 <= i < entries.len() && covered(entries, done2, i) implies st2.contains_key(
        #[trigger] dest_of(from, to, entries[i].0),
    ) && st2[dest_of(from, to, entries[i].0)] == t[entries[i].0] by {
        lemma_entry(t, from, entries, i);
        let pi = entries[i].0;
        if pi == px {
        } else {
            let s = choose|s: int| 0 <= s < done2.len() && has_prefix(#[trigger] entries[done2[s]].0, pi);
            if s < done.len() {
                assert(done1[s] == done2[s]);
                assert(covered(entries, done1, i));
            } else {
                assert(done2[s] == x);
                assert(has_prefix(pj, pi));
                assert(done1[done.len() as int] == j);
                assert(covered(entries, done1, i));
            }
            lemma_dest_injective(from, to, pi, px);
        }
    }
}

/// Whether the job of entry `i` runs at some point of `order`.
pub open spec fn is_run(order: Seq<int>, i: int) -> bool {
    exists|k: int| 0 <= k < order.len() && #[trigger] order[k] == i
}

/// A tree copied in parallel, on a file system that behaves as documented, ends as the
/// same file system as a copy one entry at a time, whatever order the jobs run in and
/// even where a job runs more than once: each job succeeds where it runs, because a
/// directory is created with its ancestors and a file only after the directory that holds
/// it was made sure of.
pub proof fn lemma_parallel_copy_any_order(
    t: Tree,
    from: Seq<Seq<u8>>,
    to: Seq<Seq<u8>>,
    entries: Seq<(Seq<Seq<u8>>, bool)>,
    jobs: Seq<JobView>,
    order: Seq<int>,
)
    requires
        copy_setting(t, from, to, entries),
        jobs.len() == entries.len(),
        forall|i: int|
            0 <= i < entries.len() ==> parallel_job(from, to, entries[i].0, entries[i].1) == Some(
                #[trigger] jobs[i],
            ),
        forall|k: int| 0 <= k < order.len() ==> 0 <= #[trigger] order[k] < entries.len(),
        forall|i: int| 0 <= i < entries.len() ==> #[trigger] is_run(order, i),
    ensures
        run_jobs(t, order.map_values(|k: int| jobs[k])) == Some(
            mirrored(t, from, to, entries, entries.len() as int),
        ),
{
    lemma_setting(t, from, to, entries);
    let ordered = order.map_values(|k: int| jobs[k]);
    lemma_jobs_prefix(t, from, to, entries, jobs, order, order.len() as int);
    assert(ordered.subrange(0, order.len() as int) =~= ordered);
    assert(order.subrange(0, order.len() as int) =~= order);
    let st = run_jobs(t, ordered)->Some_0;
    let n = entries.len() as int;
    let m = mirrored(t, from, to, entries, n);
    lemma_mirrored(t, from, to, entries, n);
    assert forall|i: int| 0 <= i < n implies #[trigger] covered(entries, order, i) by {
        assert(is_run(order, i));
        let k = choose|k: int| 0 <= k < order.len() && #[trigger] order[k] == i;
        assert(entries[i].0.subrange(0, entries[i].0.len() as int) =~= entries[i].0);
        assert(has_prefix(entries[order[k]].0, entries[i].0));
    }
    assert forall|x: Seq<Seq<u8>>| st.contains_key(x) == m.contains_key(x) by {
        if has_prefix(x, to) {
            if st.contains_key(x) {
                let i = choose|i: int|
                    0 <= i < entries.len() && covered(entries, order, i) && dest_of(from, to, entries[i].0) == x;
                assert(m.contains_key(dest_of(from, to, entries[i].0)));
            }
            if m.contains_key(x) {
                let j = choose|j: int| 0 <= j < n && dest_of(from, to, entries[j].0) == x;
                assert(st.contains_key(dest_of(from, to, entries[j].0)));
            }
        }
    }
    assert forall|x: Seq<Seq<u8>>| #[trigger] st.contains_key(x) implies st[x] == m[x] by {
        if has_prefix(x, to) {
            let i = choose|i: int|
                0 <= i < entries.len() && covered(entries, order, i) && dest_of(from, to, entries[i].0) == x;
            assert(m[dest_of(from, to, entries[i].0)] == t[entries[i].0]);
        }
    }
    assert(st =~= m);
}

/// Running the first `m` jobs of the order leaves the file system with what they
/// replicated.
proof fn lemma_jobs_prefix(
    t: Tree,
    from: Seq<Seq<u8>>,
    to: Seq<Seq<u8>>,
    entries: Seq<(Seq<Seq<u8>>, bool)>,
    jobs: Seq<JobView>,
    order: Seq<int>,
    m: int,
)
    requires
        mirror_parallel_setting(t, from, to, entries),
        jobs.len() == entries.len(),
        forall|i: int|
            0 <= i < entries.len() ==> parallel_job(from, to, entries[i].0, entries[i].1) == Some(
                #[trigger] jobs[i],
            ),
        forall|k: int| 0 <= k < order.len() ==> 0 <= #[trigger] order[k] < entries.len(),
        0 <= m <= order.len(),
    ensures
        run_jobs(t, order.map_values(|k: int| jobs[k]).subrange(0, m)) matches Some(st)
            && partly_mirrored(st, t, from, to, entries, order.subrange(0, m)),
    decreases m,
{
    let ordered = order.map_values(|k: int| jobs[k]);
    if m == 0 {
        assert(ordered.subrange(0, 0) =~= Seq::<JobView>::empty());
        let done = order.subrange(0, 0);
        assert forall|i: int| 0 <= i < entries.len() implies !covered(entries, done, i) by {}
        return;
    }
    lemma_jobs_prefix(t, from, to, entries, jobs, order, m - 1);
    assert(ordered.subrange(0, m).drop_last() =~= ordered.subrange(0, m - 1));
    let st = run_jobs(t, ordered.subrange(0, m - 1))->Some_0;
    let x = order[m - 1];
    assert(ordered.subrange(0, m).last() == jobs[x]);
    lemma_apply_job(t, from, to, entries, jobs, st, order.subrange(0, m - 1), x);
    assert(order.subrange(0, m - 1).push(x) =~= order.subrange(0, m));
}

/// Creating a directory with its ancestors a second time changes nothing and does not
/// fail.
pub proof fn lemma_create_dir_all_idempotent(t: Tree, p: Seq<Seq<u8>>)
    requires
        apply_step(t, StepView::CreateDirAll(p)) is Some,
    ensures
        apply_step(t, StepView::CreateDirAll(p)) matches Some((t1, _)) && apply_step(
            t1,
            StepView::CreateDirAll(p),
        ) == Some((t1, 0int)),
{
    let t1 = make_dirs(t, p)->Some_0;
    assert forall|a: Seq<Seq<u8>>| is_ancestor_or_self(a, p) && #[trigger] t1.contains_key(a) implies t1[a]
        == Node::Dir by {}
    let t2 = make_dirs(t1, p)->Some_0;
    assert(t2 =~= t1);
}

/// What the caller of a file copy must know of the file system: the source is a file,
/// the destination is not a directory and has a parent, and of that parent and its
/// ancestors, those that exist are directories.
pub open spec fn copy_file_setting(t: Tree, src: Seq<Seq<u8>>, dst: Seq<Seq<u8>>) -> bool {
    &&& t.contains_key(src) && t[src] is File
    &&& src != dst
    &&& !is_dir_at(t, dst)
    &&& parent_of(dst) matches Some(q) && forall|a: Seq<Seq<u8>>|
        is_ancestor_or_self(a, q) && #[trigger] t.contains_key(a) ==> t[a] == Node::Dir
}

/// A copy of a file into an existing directory succeeds: the copy holds the source's
/// bytes, whatever they are, the source stays as it was, and the bytes are reported.
pub proof fn lemma_copy_keeps_both(t: Tree, src: Seq<Seq<u8>>, dst: Seq<Seq<u8>>)
    requires
        copy_file_setting(t, src, dst),
        is_dir_at(t, parent_of(dst)->Some_0),
    ensures
        apply_step(t, StepView::Copy(src, dst)) matches Some((t2, n)) && {
            &&& t2.contains_key(dst) && t2[dst] == t[src]
            &&& t2.contains_key(src) && t2[src] == t[src]
            &&& n == t[src]->File_0.len()
        },
{
}

/// The steps of `copy_create_steps` succeed where the caller said rightly that the
/// directory of the destination exists, or let it be created: the directory and its
/// ancestors stand as directories afterwards, the copy holds the source's bytes, and the
/// source stays. The working directory, the empty path, cannot be created and must exist.
proof fn lemma_copy_create_runs(t: Tree, src: Seq<Seq<u8>>, dst: Seq<Seq<u8>>, parent_exists: bool)
    requires
        copy_file_setting(t, src, dst),
        (parent_exists || parent_of(dst)->Some_0.len() == 0) ==> is_dir_at(
            t,
            parent_of(dst)->Some_0,
        ),
    ensures
        run_steps(t, copy_create_plan(src, dst, parent_exists)) matches Some((t2, n)) && {
            &&& is_dir_at(t2, parent_of(dst)->Some_0)
            &&& !parent_exists ==> forall|a: Seq<Seq<u8>>|
                is_ancestor_or_self(a, parent_of(dst)->Some_0) ==> #[trigger] is_dir_at(t2, a)
            &&& t2.contains_key(dst) && t2[dst] == t[src]
            &&& t2.contains_key(src) && t2[src] == t[src]
            &&& n == t[src]->File_0.len()
        },
{
    let q = parent_of(dst)->Some_0;
    let plan = copy_create_plan(src, dst, parent_exists);
    assert(run_steps(t, Seq::<StepView>::empty()) == Some((t, 0int)));
    let t1 = if parent_exists {
        t
    } else {
        make_dirs(t, q)->Some_0
    };
    if parent_exists {
        assert(plan == seq![StepView::Copy(src, dst)]);
        assert(plan.drop_last() =~= Seq::<StepView>::empty());
    } else {
        assert(plan == seq![StepView::CreateDirAll(q), StepView::Copy(src, dst)]);
        assert(plan.drop_last() =~= seq![StepView::CreateDirAll(q)]);
        assert(plan.drop_last().drop_last() =~= Seq::<StepView>::empty());
        assert(make_dirs(t, q) is Some);
        assert(run_steps(t, plan.drop_last()) == Some((t1, 0int)));
        if q.len() > 0 {
            assert(is_ancestor_or_self(q, q)) by {
                assert(q.subrange(0, q.len() as int) =~= q);
            }
        }
        assert(!is_dir_at(t1, dst)) by {
            if is_ancestor_or_self(dst, q) {
                assert(dst.len() <= q.len());
            }
        }
    }
    assert(is_dir_at(t1, q));
    assert(t1.contains_key(src) && t1[src] == t[src]);
    let t2 = t1.insert(dst, t[src]);
    assert(copy_file_to(t1, src, dst) == Some((t2, t[src]->File_0.len() as int)));
    if !parent_exists {
        assert forall|a: Seq<Seq<u8>>| is_ancestor_or_self(a, q) implies #[trigger] is_dir_at(t2, a) by {
            assert(t1.contains_key(a));
            if t.contains_key(a) {
                assert(t[a] == Node::Dir);
            }
            assert(t1[a] == Node::Dir);
            assert(a.len() <= q.len());
            assert(a != dst);
        }
    }
}

/// A copy into a directory that is missing fails; the steps of `copy_create_steps` on
/// the same paths succeed: they create the missing directory and each missing ancestor,
/// and the copy holds the source's bytes while the source stays. The missing directory
/// is a named one: the working directory, the empty path, cannot be created.
pub proof fn lemma_copy_create_makes_parents(t: Tree, src: Seq<Seq<u8>>, dst: Seq<Seq<u8>>)
    requires
        copy_file_setting(t, src, dst),
        parent_of(dst)->Some_0.len() > 0,
        !t.contains_key(parent_of(dst)->Some_0),
    ensures
        apply_step(t, StepView::Copy(src, dst)) is None,
        run_steps(t, copy_create_plan(src, dst, false)) matches Some((t2, n)) && {
            &&& forall|a: Seq<Seq<u8>>|
                is_ancestor_or_self(a, parent_of(dst)->Some_0) ==> #[trigger] is_dir_at(t2, a)
            &&& t2.contains_key(dst) && t2[dst] == t[src]
            &&& t2.contains_key(src) && t2[src] == t[src]
            &&& n == t[src]->File_0.len()
        },
{
    lemma_copy_create_runs(t, src, dst, false);
}

/// Moving a file with the steps of `move_file_steps` leaves the destination with the
/// source's bytes and the source gone, and reports the bytes moved. The caller may say
/// that the directory of the destination is missing when it exists; where it says that
/// it exists, it must be right. A destination without a named directory lands in the
/// working directory, the empty path, which must exist.
pub proof fn lemma_move_file(t: Tree, src: Seq<Seq<u8>>, dst: Seq<Seq<u8>>, parent_exists: bool)
    requires
        copy_file_setting(t, src, dst),
        (parent_exists || parent_of(dst)->Some_0.len() == 0) ==> is_dir_at(
            t,
            parent_of(dst)->Some_0,
        ),
    ensures
        run_steps(t, move_file_plan(src, dst, parent_exists)) matches Some((t3, n)) && {
            &&& t3.contains_key(dst) && t3[dst] == t[src]
            &&& !t3.contains_key(src)
            &&& n == t[src]->File_0.len()
        },
{
    lemma_copy_create_runs(t, src, dst, parent_exists);
    let plan = copy_create_plan(src, dst, parent_exists);
    let (t2, n2) = run_steps(t, plan)->Some_0;
    let full = move_file_plan(src, dst, parent_exists);
    assert(full.drop_last() =~= plan);
    assert(full.last() == StepView::RemoveFile(src));
    assert(apply_step(t2, StepView::RemoveFile(src)) == Some((t2.remove(src), 0int)));
    assert(run_steps(t, full) == Some((t2.remove(src), n2)));
}

/// A tree moved one entry at a time, then removed at its root, on a file system that
/// behaves as documented, stands mirrored under `to` and is gone from `from`, where `to`
/// does not lie inside `from`.
pub proof fn lemma_move_tree(
    t: Tree,
    from: Seq<Seq<u8>>,
    to: Seq<Seq<u8>>,
    entries: Seq<(Seq<Seq<u8>>, bool)>,
    steps: Seq<StepView>,
)
    requires
        copy_setting(t, from, to, entries),
        !has_prefix(to, from),
        steps.len() == entries.len(),
        forall|i: int|
            0 <= i < entries.len() ==> sequential_step(from, to, entries[i].0, entries[i].1)
                == Some(#[trigger] steps[i]),
    ensures
        run_steps(t, steps.push(StepView::RemoveDirAll(from))) matches Some((t3, bytes)) && {
            &&& bytes == file_bytes(t, entries, entries.len() as int)
            &&& forall|k: Seq<Seq<u8>>|
                t.contains_key(k) && has_prefix(k, from) ==> (remapped(from, to, k) matches Some(
                    c,
                ) && t3.contains_key(c) && t3[c] == t[k])
            &&& forall|k: Seq<Seq<u8>>| has_prefix(k, from) ==> !#[trigger] t3.contains_key(k)
            &&& forall|c: Seq<Seq<u8>>|
                #[trigger] t3.contains_key(c) && has_prefix(c, to) ==> exists|k: Seq<Seq<u8>>|
                    t.contains_key(k) && has_prefix(k, from) && remapped(from, to, k) == Some(c)
        },
{
    lemma_setting(t, from, to, entries);
    lemma_copy_tree_mirrors(t, from, to, entries, steps);
    let (t2, n) = run_steps(t, steps)->Some_0;
    let all = steps.push(StepView::RemoveDirAll(from));
    assert(all.drop_last() =~= steps);
    lemma_entry(t, from, entries, 0);
    assert(!has_prefix(from, to));
    assert(is_dir_at(t2, from));
    let t3 = remove_tree_at(t2, from)->Some_0.0;
    assert forall|c: Seq<Seq<u8>>| #[trigger] t3.contains_key(c) && has_prefix(c, to) implies exists|
        k: Seq<Seq<u8>>,
    | t.contains_key(k) && has_prefix(k, from) && remapped(from, to, k) == Some(c) by {
        assert(t2.contains_key(c));
    }
    assert forall|k: Seq<Seq<u8>>|
        t.contains_key(k) && has_prefix(k, from) implies (remapped(from, to, k) matches Some(c)
        && t3.contains_key(c) && t3[c] == t[k]) by {
        lemma_entry(t, from, entries, 0);
        let i = choose|i: int| 0 <= i < entries.len() && (#[trigger] entries[i]).0 == k;
        lemma_entry(t, from, entries, i);
        lemma_dest(from, to, k);
        let c = dest_of(from, to, k);
        assert(!has_prefix(c, from)) by {
            if has_prefix(c, from) {
                if to.len() >= from.len() {
                    assert(to.subrange(0, from.len() as int) =~= c.subrange(0, from.len() as int));
                } else {
                    assert(from.subrange(0, to.len() as int) =~= c.subrange(0, to.len() as int));
                    assert(has_prefix(from, to));
                }
            }
        }
    }
}

/// A name appended to a well-formed path keeps it well formed.
proof fn lemma_push_name(a: Seq<Seq<u8>>, x: Seq<u8>)
    requires
        wf_components(a),
        is_name(x),
    ensures
        wf_components(a.push(x)),
        has_prefix(a.push(x), a),
        parent_of(a.push(x)) == Some(a),
{
    assert(a.push(x).subrange(0, a.len() as int) =~= a);
    assert(a.push(x).drop_last() =~= a);
    assert(x != root_component()) by {
        if x == root_component() {
            assert(x[0] == 47u8);
        }
    }
    assert forall|i: int| 0 <= i < a.push(x).len() implies (is_name(#[trigger] a.push(x)[i]) || (i
        == 0 && crate::path::is_lead(a.push(x)[i]))) by {
        if i < a.len() {
            assert(a.push(x)[i] == a[i]);
        }
    }
}

/// The walk of the example tree: `a`, `a/b`, `a/b/c`, `a/b/c/f`, then `a/e`.
pub open spec fn example_walk(
    a: Seq<Seq<u8>>,
    b: Seq<u8>,
    c: Seq<u8>,
    f: Seq<u8>,
    e: Seq<u8>,
) -> Seq<(Seq<Seq<u8>>, bool)> {
    seq![
        (a, true),
        (a.push(b), true),
        (a.push(b).push(c), true),
        (a.push(b).push(c).push(f), false),
        (a.push(e), true),
    ]
}

/// The example tree: the directory `a` holds exactly the directories `b` and `b/c`, the
/// file `b/c/f` with any bytes, and the empty directory `e`. Copied one entry at a time to
/// `moved`, which does not exist yet, it gives `moved/b/c/f` with the same bytes and the
/// empty directory `moved/e`, and reports the bytes of `f`; removing `a` afterwards leaves
/// nothing of it and keeps the copy.
pub proof fn lemma_example_tree(
    t: Tree,
    a: Seq<Seq<u8>>,
    moved: Seq<Seq<u8>>,
    b: Seq<u8>,
    c: Seq<u8>,
    f: Seq<u8>,
    e: Seq<u8>,
    steps: Seq<StepView>,
)
    requires
        is_tree(t),
        wf_components(a),
        a.len() > 0,
        wf_components(moved),
        !t.contains_key(moved),
        parent_of(moved) matches Some(q) && is_dir_at(t, q),
        !has_prefix(moved, a),
        is_name(b),
        is_name(c),
        is_name(f),
        is_name(e),
        b != e,
        is_dir_at(t, a),
        is_dir_at(t, a.push(b)),
        is_dir_at(t, a.push(b).push(c)),
        t.contains_key(a.push(b).push(c).push(f)) && t[a.push(b).push(c).push(f)] is File,
        is_dir_at(t, a.push(e)),
        forall|k: Seq<Seq<u8>>|
            #[trigger] t.contains_key(k) && has_prefix(k, a) ==> k == a || k == a.push(b) || k
                == a.push(b).push(c) || k == a.push(b).push(c).push(f) || k == a.push(e),
        steps.len() == 5,
        forall|i: int|
            0 <= i < 5 ==> sequential_step(
                a,
                moved,
                example_walk(a, b, c, f, e)[i].0,
                example_walk(a, b, c, f, e)[i].1,
            ) == Some(#[trigger] steps[i]),
    ensures
        run_steps(t, steps) matches Some((t2, n)) && {
            &&& n == t[a.push(b).push(c).push(f)]->File_0.len()
            &&& is_dir_at(t2, moved.push(b))
            &&& is_dir_at(t2, moved.push(b).push(c))
            &&& t2.contains_key(moved.push(b).push(c).push(f))
            &&& t2[moved.push(b).push(c).push(f)] == t[a.push(b).push(c).push(f)]
            &&& is_dir_at(t2, moved.push(e))
            &&& forall|k: Seq<Seq<u8>>|
                #[trigger] t2.contains_key(k) && has_prefix(k, moved.push(e)) ==> k == moved.push(e)
        },
        run_steps(t, steps.push(StepView::RemoveDirAll(a))) matches Some((t3, _)) && {
            &&& forall|k: Seq<Seq<u8>>| has_prefix(k, a) ==> !#[trigger] t3.contains_key(k)
            &&& t3.contains_key(moved.push(b).push(c).push(f))
            &&& t3[moved.push(b).push(c).push(f)] == t[a.push(b).push(c).push(f)]
            &&& is_dir_at(t3, moved.push(e))
        },
{
    let ab = a.push(b);
    let abc = ab.push(c);
    let abcf = abc.push(f);
    let ae = a.push(e);
    lemma_push_name(a, b);
    lemma_push_name(ab, c);
    lemma_push_name(abc, f);
    lemma_push_name(a, e);
    let w = example_walk(a, b, c, f, e);
    assert(has_prefix(abc, a)) by {
        assert(abc.subrange(0, a.len() as int) =~= a);
    }
    assert(has_prefix(abcf, a)) by {
        assert(abcf.subrange(0, a.len() as int) =~= a);
    }
    assert(ae != ab) by {
        assert(ae.last() == e && ab.last() == b);
    }
    assert(is_walk(t, a, w)) by {
        assert(a.subrange(0, a.len() as int) =~= a);
        assert forall|k: Seq<Seq<u8>>|
            t.contains_key(k) && has_prefix(k, a) implies exists|i: int|
            0 <= i < w.len() && (#[trigger] w[i]).0 == k by {
            if k == a {
                assert(w[0].0 == k);
            } else if k == ab {
                assert(w[1].0 == k);
            } else if k == abc {
                assert(w[2].0 == k);
            } else if k == abcf {
                assert(w[3].0 == k);
            } else {
                assert(w[4].0 == k);
            }
        }
        assert forall|i: int| 0 < i < w.len() implies exists|j: int|
            0 <= j < i && w[j].1 && parent_of(#[trigger] w[i].0) == Some(w[j].0) by {
            if i == 1 {
                assert(w[0].1 && parent_of(w[1].0) == Some(w[0].0));
            } else if i == 2 {
                assert(w[1].1 && parent_of(w[2].0) == Some(w[1].0));
            } else if i == 3 {
                assert(w[2].1 && parent_of(w[3].0) == Some(w[2].0));
            } else {
                assert(w[0].1 && parent_of(w[4].0) == Some(w[0].0));
            }
        }
    }
    assert(copy_setting(t, a, moved, w));
    lemma_copy_tree_mirrors(t, a, moved, w, steps);
    lemma_move_tree(t, a, moved, w, steps);
    lemma_setting(t, a, moved, w);
    let (t2, n) = run_steps(t, steps)->Some_0;
    assert(file_bytes(t, w, 0) == 0);
    assert(file_bytes(t, w, 1) == 0);
    assert(file_bytes(t, w, 2) == 0);
    assert(file_bytes(t, w, 3) == 0);
    assert(file_bytes(t, w, 4) == t[abcf]->File_0.len());
    assert(file_bytes(t, w, 5) == t[abcf]->File_0.len());
    lemma_dest(a, moved, ab);
    lemma_dest(a, moved, abc);
    lemma_dest(a, moved, abcf);
    lemma_dest(a, moved, ae);
    assert(dest_of(a, moved, ab) =~= moved.push(b));
    assert(dest_of(a, moved, abc) =~= moved.push(b).push(c));
    assert(dest_of(a, moved, abcf) =~= moved.push(b).push(c).push(f));
    assert(dest_of(a, moved, ae) =~= moved.push(e));
    let me = moved.push(e);
    assert forall|k: Seq<Seq<u8>>| #[trigger] t2.contains_key(k) && has_prefix(k, me) implies k == me by {
        assert(has_prefix(k, moved)) by {
            assert(k.subrange(0, moved.len() as int) =~= me.subrange(0, moved.len() as int));
        }
        let k0 = choose|k0: Seq<Seq<u8>>|
            t.contains_key(k0) && has_prefix(k0, a) && remapped(a, moved, k0) == Some(k);
        if k0 == abcf || k0 == abc || k0 == ab {
            assert(k[moved.len() as int] == b);
            assert(me[moved.len() as int] == e);
            assert(k.subrange(0, me.len() as int)[moved.len() as int] == k[moved.len() as int]);
        } else if k0 == a {
            assert(a.subrange(a.len() as int, a.len() as int) =~= Seq::<Seq<u8>>::empty());
            assert(dest_of(a, moved, a) =~= moved);
            lemma_dest(a, moved, a);
        }
    }
}

} // verus!
