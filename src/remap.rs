use vstd::prelude::*;
use crate::error::Error;
use crate::path::{
    has_prefix, is_name, join_of, root_component, strip_prefix_of, wf_components, FsPath,
};

verus! {

/// Where `path`, which lies under `from`, lands once its tree is moved to `to`: the part
/// of `path` below `from`, joined onto `to`. `None` where `path` does not lie under `from`.
pub open spec fn remapped(from: Seq<Seq<u8>>, to: Seq<Seq<u8>>, path: Seq<Seq<u8>>) -> Option<
    Seq<Seq<u8>>,
> {
    match strip_prefix_of(path, from) {
        Some(rel) => Some(join_of(to, rel)),
        None => None,
    }
}

/// Whether `e` is the error for a path that does not lie under the root it was walked from.
pub open spec fn is_strip_error(e: Error, path: Seq<Seq<u8>>, from: Seq<Seq<u8>>) -> bool {
    e matches Error::StripPrefix { target, strip } && target@ == path && strip@ == from
}

/// Maps `path`, which lies under `from`, to the same place under `to`. Fails with
/// `Error::StripPrefix` where `path` does not lie under `from`.
pub fn change_dir(from: &FsPath, to: &FsPath, path: &FsPath) -> (r: Result<FsPath, Error>)
    ensures
        r matches Ok(p) ==> remapped(from@, to@, path@) == Some(p@),
        r matches Err(e) ==> remapped(from@, to@, path@) is None && is_strip_error(e, path@, from@),
{
    match path.strip_prefix(from) {
        Some(rel) => Ok(to.join(&rel)),
        None => Err(Error::StripPrefix { target: path.duplicate(), strip: from.duplicate() }),
    }
}

/// Below a non-empty root, a path holds names only.
proof fn lemma_rest_is_names(from: Seq<Seq<u8>>, path: Seq<Seq<u8>>)
    requires
        wf_components(path),
        from.len() > 0,
        has_prefix(path, from),
    ensures
        forall|k: int|
            0 <= k < path.len() - from.len() ==> is_name(
                #[trigger] path.subrange(from.len() as int, path.len() as int)[k],
            ),
{
    let rel = path.subrange(from.len() as int, path.len() as int);
    assert forall|k: int| 0 <= k < path.len() - from.len() implies is_name(#[trigger] rel[k]) by {
        assert(rel[k] == path[k + from.len()]);
    }
}

/// Copying a tree keeps each entry at the same place relative to the root: an entry under
/// a non-empty root `from` lands under `to`, and what remains of its destination after
/// `to` is what remains of it after `from`.
pub proof fn lemma_remap_keeps_relative_path(
    from: Seq<Seq<u8>>,
    to: Seq<Seq<u8>>,
    path: Seq<Seq<u8>>,
)
    requires
        wf_components(from),
        wf_components(to),
        wf_components(path),
        from.len() > 0,
        has_prefix(path, from),
    ensures
        remapped(from, to, path) matches Some(dest) && strip_prefix_of(dest, to) == strip_prefix_of(
            path,
            from,
        ),
{
    lemma_rest_is_names(from, path);
    let rel = path.subrange(from.len() as int, path.len() as int);
    if rel.len() > 0 {
        assert(is_name(rel[0]));
        assert(rel[0] != root_component()) by {
            if rel[0] == root_component() {
                assert(rel[0][0] == 47u8);
            }
        }
    }
    let dest = join_of(to, rel);
    if to.len() == 0 {
        assert(dest.subrange(0, 0) =~= to);
        assert(dest.subrange(0, dest.len() as int) =~= dest);
    } else {
        assert(dest =~= to + rel);
        assert(dest.subrange(0, to.len() as int) =~= to);
        assert(dest.subrange(to.len() as int, dest.len() as int) =~= rel);
    }
}

/// Copying a tree sends two different entries under a non-empty root to two different
/// destinations, so no copy overwrites another.
pub proof fn lemma_remap_distinct(
    from: Seq<Seq<u8>>,
    to: Seq<Seq<u8>>,
    path1: Seq<Seq<u8>>,
    path2: Seq<Seq<u8>>,
)
    requires
        wf_components(from),
        wf_components(to),
        wf_components(path1),
        wf_components(path2),
        from.len() > 0,
        has_prefix(path1, from),
        has_prefix(path2, from),
        path1 != path2,
    ensures
        remapped(from, to, path1) != remapped(from, to, path2),
{
    lemma_remap_keeps_relative_path(from, to, path1);
    lemma_remap_keeps_relative_path(from, to, path2);
    let rel1 = path1.subrange(from.len() as int, path1.len() as int);
    let rel2 = path2.subrange(from.len() as int, path2.len() as int);
    assert(path1 =~= from + rel1);
    assert(path2 =~= from + rel2);
}

} // verus!
