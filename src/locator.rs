use vstd::prelude::*;

use crate::fspath::FsPath;
use crate::snapshot::{has_file, Directory, File};

verus! {

/// Whether `i` is the first file of `files` whose path is `p`.
pub open spec fn first_file_at(files: Seq<File>, p: Seq<Seq<char>>, i: int) -> bool {
    &&& 0 <= i < files.len()
    &&& files[i].path@ == p
    &&& forall|i2: int| 0 <= i2 < i ==> (#[trigger] files[i2]).path@ != p
}

/// Whether `j` is the first tree of `dirs` that holds a file at path `p`.
pub open spec fn first_dir_holding(dirs: Seq<Directory>, p: Seq<Seq<char>>, j: int) -> bool {
    &&& 0 <= j < dirs.len()
    &&& has_file(dirs[j], p)
    &&& forall|j2: int| 0 <= j2 < j ==> !has_file(#[trigger] dirs[j2], p)
}

/// Whether `new` is `old` with the flag of its first file at path `p` set to `b`, and
/// nothing else changed. Files come first in preorder: the files of a directory, in
/// order, before its subdirectories, in order.
pub open spec fn set_first(old: Directory, new: Directory, p: Seq<Seq<char>>, b: bool) -> bool
    decreases old,
{
    &&& new.name == old.name
    &&& new.path == old.path
    &&& if exists|i: int| first_file_at(old.files@, p, i) {
        let i = choose|i: int| first_file_at(old.files@, p, i);
        &&& new.dirs == old.dirs
        &&& new.files@ == old.files@.update(
            i,
            File { name: old.files@[i].name, path: old.files@[i].path, translatable: b },
        )
    } else if exists|j: int| first_dir_holding(old.dirs@, p, j) {
        let j = choose|j: int| first_dir_holding(old.dirs@, p, j);
        &&& new.files == old.files
        &&& new.dirs@.len() == old.dirs@.len()
        &&& forall|j2: int|
            0 <= j2 < old.dirs@.len() && j2 != j ==> #[trigger] new.dirs@[j2] == old.dirs@[j2]
        &&& set_first(old.dirs@[j], new.dirs@[j], p, b)
    } else {
        false
    }
}

/// Whether some file of the tree `d` at path `p` has the flag `b`.
pub open spec fn has_flagged(d: Directory, p: Seq<Seq<char>>, b: bool) -> bool
    decreases d,
{
    ||| exists|i: int|
        0 <= i < d.files@.len() && (#[trigger] d.files@[i]).path@ == p && d.files@[i].translatable
            == b
    ||| exists|j: int| 0 <= j < d.dirs@.len() && has_flagged(#[trigger] d.dirs@[j], p, b)
}

/// Whether some file of the tree `dir` has the path `path`.
pub fn contains_file(dir: &Directory, path: &FsPath) -> (r: bool)
    ensures
        r == has_file(*dir, path@),
    decreases *dir,
{
    let mut i: usize = 0;
    while i < dir.files.len()
        invariant
            i <= dir.files@.len(),
            forall|i2: int| 0 <= i2 < i ==> (#[trigger] dir.files@[i2]).path@ != path@,
        decreases dir.files@.len() - i,
    {
        if dir.files[i].path.same_as(path) {
            return true;
        }
        i = i + 1;
    }
    let mut j: usize = 0;
    while j < dir.dirs.len()
        invariant
            j <= dir.dirs@.len(),
            forall|i2: int| 0 <= i2 < dir.files@.len() ==> (#[trigger] dir.files@[i2]).path@ != path@,
            forall|j2: int| 0 <= j2 < j ==> !has_file(#[trigger] dir.dirs@[j2], path@),
        decreases dir.dirs@.len() - j,
    {
        if contains_file(&dir.dirs[j], path) {
            return true;
        }
        j = j + 1;
    }
    false
}

/// Searches the tree `dir` depth first, the files of a directory before its
/// subdirectories, for the first file whose path is `path`, and sets that file's flag to
/// `translatable`. Returns whether such a file was found; when none was, the tree is
/// left as it was.
pub fn find_file_and_apply(dir: &mut Directory, path: &FsPath, translatable: bool) -> (found: bool)
    ensures
        found == has_file(*old(dir), path@),
        found ==> set_first(*old(dir), *final(dir), path@, translatable),
        !found ==> *final(dir) == *old(dir),
    decreases *old(dir),
{
    let mut i: usize = 0;
    while i < dir.files.len()
        invariant
            *dir == *old(dir),
            i <= dir.files@.len(),
            forall|i2: int| 0 <= i2 < i ==> (#[trigger] dir.files@[i2]).path@ != path@,
        decreases dir.files@.len() - i,
    {
        if dir.files[i].path.same_as(path) {
            assert(first_file_at(dir.files@, path@, i as int));
            assert forall|i2: int| first_file_at(dir.files@, path@, i2) implies i2 == i by {
                if i2 > i {
                    assert(dir.files@[i as int].path@ != path@);
                }
            }
            let f = &mut dir.files[i];
            f.translatable = translatable;
            assert(dir.files@ == old(dir).files@.update(
                i as int,
                File {
                    name: old(dir).files@[i as int].name,
                    path: old(dir).files@[i as int].path,
                    translatable,
                },
            ));
            return true;
        }
        i = i + 1;
    }
    assert(!exists|i2: int| first_file_at(dir.files@, path@, i2));
    let mut j: usize = 0;
    while j < dir.dirs.len()
        invariant
            *dir == *old(dir),
            j <= dir.dirs@.len(),
            forall|i2: int| 0 <= i2 < dir.files@.len() ==> (#[trigger] dir.files@[i2]).path@ != path@,
            forall|j2: int| 0 <= j2 < j ==> !has_file(#[trigger] dir.dirs@[j2], path@),
            !exists|i2: int| first_file_at(dir.files@, path@, i2),
        decreases dir.dirs@.len() - j,
    {
        if contains_file(&dir.dirs[j], path) {
            assert(first_dir_holding(dir.dirs@, path@, j as int));
            assert forall|j2: int| first_dir_holding(dir.dirs@, path@, j2) implies j2 == j by {
                if j2 > j {
                    assert(!has_file(dir.dirs@[j as int], path@));
                }
            }
            let sub = &mut dir.dirs[j];
            let found = find_file_and_apply(sub, path, translatable);
            assert(found);
            return true;
        }
        j = j + 1;
    }
    false
}

/// Whether some file of the tree `dir` at path `path` is translatable.
pub fn is_marked(dir: &Directory, path: &FsPath) -> (r: bool)
    ensures
        r == has_flagged(*dir, path@, true),
    decreases *dir,
{
    let mut i: usize = 0;
    while i < dir.files.len()
        invariant
            i <= dir.files@.len(),
            forall|i2: int|
                0 <= i2 < i ==> !((#[trigger] dir.files@[i2]).path@ == path@
                    && dir.files@[i2].translatable == true),
        decreases dir.files@.len() - i,
    {
        if dir.files[i].translatable && dir.files[i].path.same_as(path) {
            return true;
        }
        i = i + 1;
    }
    let mut j: usize = 0;
    while j < dir.dirs.len()
        invariant
            j <= dir.dirs@.len(),
            forall|i2: int|
                0 <= i2 < dir.files@.len() ==> !((#[trigger] dir.files@[i2]).path@ == path@
                    && dir.files@[i2].translatable == true),
            forall|j2: int| 0 <= j2 < j ==> !has_flagged(#[trigger] dir.dirs@[j2], path@, true),
        decreases dir.dirs@.len() - j,
    {
        if is_marked(&dir.dirs[j], path) {
            return true;
        }
        j = j + 1;
    }
    false
}

/// Whether `result` is `fresh` with the flag of each file taken from `previous`: a file
/// is translatable exactly when a file of `previous` at its path is.
pub open spec fn flags_carried(fresh: Directory, result: Directory, previous: Directory) -> bool
    decreases fresh,
{
    &&& result.name@ == fresh.name@
    &&& result.path@ == fresh.path@
    &&& result.files@.len() == fresh.files@.len()
    &&& result.dirs@.len() == fresh.dirs@.len()
    &&& forall|i: int|
        0 <= i < fresh.files@.len() ==> (#[trigger] result.files@[i]).name@ == fresh.files@[i].name@
            && result.files@[i].path@ == fresh.files@[i].path@ && result.files@[i].translatable
            == has_flagged(previous, fresh.files@[i].path@, true)
    &&& forall|j: int|
        0 <= j < fresh.dirs@.len() ==> flags_carried(
            #[trigger] fresh.dirs@[j],
            result.dirs@[j],
            previous,
        )
}

/// Carries the translatability of files over from the earlier snapshot `previous` into
/// the rebuilt snapshot `fresh`, matching files by path: files still present keep their
/// flag, new files are untranslatable.
pub fn carry_flags(fresh: &mut Directory, previous: &Directory)
    ensures
        flags_carried(*old(fresh), *final(fresh), *previous),
    decreases *old(fresh),
{
    let mut i: usize = 0;
    while i < fresh.files.len()
        invariant
            i <= fresh.files@.len(),
            fresh.files@.len() == old(fresh).files@.len(),
            fresh.dirs == old(fresh).dirs,
            fresh.name == old(fresh).name,
            fresh.path == old(fresh).path,
            forall|i2: int|
                0 <= i2 < fresh.files@.len() ==> (#[trigger] fresh.files@[i2]).name@ == old(
                    fresh,
                ).files@[i2].name@ && fresh.files@[i2].path@ == old(fresh).files@[i2].path@,
            forall|i2: int|
                0 <= i2 < i ==> (#[trigger] fresh.files@[i2]).translatable == has_flagged(
                    *previous,
                    old(fresh).files@[i2].path@,
                    true,
                ),
        decreases fresh.files@.len() - i,
    {
        let marked = is_marked(previous, &fresh.files[i].path);
        let f = &mut fresh.files[i];
        f.translatable = marked;
        i = i + 1;
    }
    let mut j: usize = 0;
    while j < fresh.dirs.len()
        invariant
            j <= fresh.dirs@.len(),
            fresh.dirs@.len() == old(fresh).dirs@.len(),
            fresh.files@.len() == old(fresh).files@.len(),
            fresh.name == old(fresh).name,
            fresh.path == old(fresh).path,
            forall|i2: int|
                0 <= i2 < fresh.files@.len() ==> (#[trigger] fresh.files@[i2]).name@ == old(
                    fresh,
                ).files@[i2].name@ && fresh.files@[i2].path@ == old(fresh).files@[i2].path@
                    && fresh.files@[i2].translatable == has_flagged(
                    *previous,
                    old(fresh).files@[i2].path@,
                    true,
                ),
            forall|j2: int|
                0 <= j2 < j ==> flags_carried(
                    #[trigger] old(fresh).dirs@[j2],
                    fresh.dirs@[j2],
                    *previous,
                ),
            forall|j2: int| j <= j2 < fresh.dirs@.len() ==> #[trigger] fresh.dirs@[j2] == old(fresh).dirs@[j2],
        decreases fresh.dirs@.len() - j,
    {
        let sub = &mut fresh.dirs[j];
        carry_flags(sub, previous);
        j = j + 1;
    }
}

} // verus!
