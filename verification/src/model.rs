//! The mathematical model of a filesystem entry and of a completed copy.

use vstd::prelude::*;

verus! {

/// One filesystem entry: a regular file holding a sequence of bytes, or a
/// directory holding a finite map from child names to entries. The order in
/// which a real directory enumerates its children is not part of the model:
/// a directory is its name-to-entry map, nothing more.
#[verifier::ext_equal]
pub enum FsModel {
    File { content: Seq<u8> },
    Dir { entries: Map<Seq<char>, FsModel> },
}

/// The children of `dst` when it is a directory; the empty map otherwise.
pub open spec fn base_entries(dst: Option<FsModel>) -> Map<Seq<char>, FsModel> {
    match dst {
        Some(FsModel::Dir { entries }) => entries,
        _ => Map::empty(),
    }
}

/// The entry under `name` at the destination, if the destination is a
/// directory that has one.
pub open spec fn base_child(dst: Option<FsModel>, name: Seq<char>) -> Option<FsModel> {
    if base_entries(dst).dom().contains(name) {
        Some(base_entries(dst)[name])
    } else {
        None
    }
}

/// What stands at the destination after a completed copy of `src` onto `dst`
/// (`dst` is `None` when nothing exists at the destination path yet).
///
/// A file overwrites whatever was there. A directory is mirrored child by
/// child: each source child is copied onto the destination child of the same
/// name, and destination entries whose names the source does not use are
/// kept as they were. Where the kinds collide — a directory copied where a
/// file stood, or the reverse — the destination ends as the source's kind;
/// on a real filesystem such a copy fails instead, so a driver never reaches
/// that outcome.
pub open spec fn copy_onto(src: FsModel, dst: Option<FsModel>) -> FsModel
    decreases src,
{
    match src {
        FsModel::File { content } => FsModel::File { content },
        FsModel::Dir { entries } => FsModel::Dir {
            entries: Map::new(
                |name: Seq<char>|
                    entries.dom().contains(name) || base_entries(dst).dom().contains(name),
                |name: Seq<char>|
                    if entries.dom().contains(name) {
                        copy_onto(entries[name], base_child(dst, name))
                    } else {
                        base_entries(dst)[name]
                    },
            ),
        },
    }
}

/// The entry a chain of child names leads to, if each name on the way
/// stands in a directory.
pub open spec fn lookup_path(t: FsModel, path: Seq<Seq<char>>) -> Option<FsModel>
    decreases path.len(),
{
    if path.len() == 0 {
        Some(t)
    } else {
        match t {
            FsModel::Dir { entries } => if entries.dom().contains(path[0]) {
                lookup_path(entries[path[0]], path.drop_first())
            } else {
                None
            },
            _ => None,
        }
    }
}

/// The source leaves `path` alone: somewhere along the way it has no entry
/// of the next name, and down to that point it is all directories. A copy of
/// such a source writes nothing at `path`.
pub open spec fn misses(src: FsModel, path: Seq<Seq<char>>) -> bool
    decreases path.len(),
{
    &&& path.len() > 0
    &&& src is Dir
    &&& (src->entries.dom().contains(path[0]) ==> misses(src->entries[path[0]], path.drop_first()))
}

/// A file is copied whole: whatever stood at the destination, afterwards the
/// destination is a file with exactly the source's bytes.
pub proof fn lemma_copy_file(content: Seq<u8>, dst: Option<FsModel>)
    ensures
        copy_onto(FsModel::File { content }, dst) == (FsModel::File { content }),
{
}

/// Copying onto a place where nothing exists reproduces the source exactly:
/// the destination ends up with the same kind of entry, the same bytes for a
/// file, and, child by child, the same tree for a directory.
pub proof fn lemma_copy_fresh(src: FsModel)
    ensures
        copy_onto(src, None) == src,
    decreases src,
{
    match src {
        FsModel::File { content } => {},
        FsModel::Dir { entries } => {
            let copied = copy_onto(src, None)->entries;
            assert(copied.dom() =~= entries.dom());
            assert forall|name: Seq<char>| copied.dom().contains(name) implies #[trigger] copied[name]
                =~~= entries[name] by {
                assert(copied[name] == copy_onto(entries[name], base_child(None, name)));
                lemma_copy_fresh(entries[name]);
            }
            assert(copied =~~= entries);
            assert(copy_onto(src, None) =~~= src);
        },
    }
}

/// Copying twice with the same source and destination leaves the destination
/// exactly as one copy does: files are overwritten, never duplicated.
pub proof fn lemma_copy_idempotent(src: FsModel, dst: Option<FsModel>)
    ensures
        copy_onto(src, Some(copy_onto(src, dst))) == copy_onto(src, dst),
    decreases src,
{
    match src {
        FsModel::File { content } => {},
        FsModel::Dir { entries } => {
            let once = copy_onto(src, dst);
            let twice = copy_onto(src, Some(once));
            assert(twice->entries.dom() =~= once->entries.dom());
            assert forall|name: Seq<char>| twice->entries.dom().contains(name) implies #[trigger] twice->entries[name]
                =~~= once->entries[name] by {
                if entries.dom().contains(name) {
                    assert(once->entries[name] == copy_onto(entries[name], base_child(dst, name)));
                    assert(base_child(Some(once), name) == Some(once->entries[name]));
                    assert(twice->entries[name] == copy_onto(
                        entries[name],
                        Some(copy_onto(entries[name], base_child(dst, name))),
                    ));
                    lemma_copy_idempotent(entries[name], base_child(dst, name));
                } else {
                    assert(twice->entries[name] == base_entries(Some(once))[name]);
                    assert(once->entries[name] == base_entries(dst)[name]);
                }
            }
            assert(twice->entries =~~= once->entries);
            assert(twice =~~= once);
        },
    }
}

/// What a directory copy leaves alone, it leaves alone at every depth: an
/// entry of the destination, however deep, whose path the source misses is
/// still there after the copy, unchanged.
pub proof fn lemma_copy_keeps_path(src: FsModel, dst: FsModel, path: Seq<Seq<char>>)
    requires
        misses(src, path),
        lookup_path(dst, path) is Some,
    ensures
        lookup_path(copy_onto(src, Some(dst)), path) == lookup_path(dst, path),
    decreases path.len(),
{
    let p0 = path[0];
    let rest = path.drop_first();
    let dents = dst->entries;
    let copied = copy_onto(src, Some(dst));
    assert(dst is Dir && dents.dom().contains(p0));
    assert(copied is Dir && copied->entries.dom().contains(p0));
    if src->entries.dom().contains(p0) {
        assert(copied->entries[p0] == copy_onto(src->entries[p0], base_child(Some(dst), p0)));
        assert(base_child(Some(dst), p0) == Some(dents[p0]));
        lemma_copy_keeps_path(src->entries[p0], dents[p0], rest);
    } else {
        assert(copied->entries[p0] == dents[p0]);
    }
}

/// A directory copy only adds or overwrites entries, never removes one: a
/// destination entry whose name the source does not use is still there after
/// the copy, unchanged.
pub proof fn lemma_copy_keeps_unrelated(src: FsModel, dst: Option<FsModel>, name: Seq<char>)
    requires
        src is Dir,
        base_entries(dst).dom().contains(name),
        !src->entries.dom().contains(name),
    ensures
        copy_onto(src, dst) is Dir,
        copy_onto(src, dst)->entries.dom().contains(name),
        copy_onto(src, dst)->entries[name] == base_entries(dst)[name],
{
}

} // verus!

