use vstd::prelude::*;

use crate::fspath::FsPath;

verus! {

/// The name that a snapshot taken at `p` gives its directory: the last component,
/// or the empty name for the root.
pub open spec fn last_name(p: Seq<Seq<char>>) -> Seq<char> {
    if p.len() == 0 {
        Seq::<char>::empty()
    } else {
        p.last()
    }
}

/// A file of a snapshot, with its translatability.
pub struct File {
    pub name: String,
    pub path: FsPath,
    pub translatable: bool,
}

/// A directory of a snapshot, with the directories and files it held when it was scanned.
pub struct Directory {
    pub name: String,
    pub path: FsPath,
    pub dirs: Vec<Directory>,
    pub files: Vec<File>,
}

/// Whether some file of the tree `d` has the path `p`.
pub open spec fn has_file(d: Directory, p: Seq<Seq<char>>) -> bool
    decreases d,
{
    ||| exists|i: int| 0 <= i < d.files@.len() && (#[trigger] d.files@[i]).path@ == p
    ||| exists|j: int|
        0 <= j < d.dirs@.len() && has_file(#[trigger] d.dirs@[j], p)
}

/// Whether some directory strictly below the top of the tree `d` has the path `p`.
pub open spec fn has_dir(d: Directory, p: Seq<Seq<char>>) -> bool
    decreases d,
{
    exists|j: int|
        0 <= j < d.dirs@.len() && ((#[trigger] d.dirs@[j]).path@ == p || has_dir(d.dirs@[j], p))
}

/// Whether every entry of the tree `d` sits directly below its parent, under its own name.
pub open spec fn well_formed(d: Directory) -> bool
    decreases d,
{
    &&& forall|i: int|
        0 <= i < d.files@.len() ==> (#[trigger] d.files@[i]).path@ == d.path@.push(
            d.files@[i].name@,
        )
    &&& forall|j: int|
        0 <= j < d.dirs@.len() ==> (#[trigger] d.dirs@[j]).path@ == d.path@.push(
            d.dirs@[j].name@,
        ) && well_formed(d.dirs@[j])
}

/// Whether the trees `a` and `b` have the same names, paths, files and flags, level by
/// level and in the same order.
pub open spec fn same_tree(a: Directory, b: Directory) -> bool
    decreases a,
{
    &&& a.name@ == b.name@
    &&& a.path@ == b.path@
    &&& a.files@.len() == b.files@.len()
    &&& a.dirs@.len() == b.dirs@.len()
    &&& forall|i: int|
        0 <= i < a.files@.len() ==> (#[trigger] a.files@[i]).name@ == b.files@[i].name@
            && a.files@[i].path@ == b.files@[i].path@ && a.files@[i].translatable
            == b.files@[i].translatable
    &&& forall|j: int| 0 <= j < a.dirs@.len() ==> same_tree(#[trigger] a.dirs@[j], b.dirs@[j])
}

impl File {
    pub fn get_name(&self) -> (r: String)
        ensures
            r@ == self.name@,
    {
        self.name.clone()
    }

    pub fn get_path(&self) -> (r: FsPath)
        ensures
            r@ == self.path@,
    {
        self.path.duplicate()
    }

    pub fn is_translatable(&self) -> (r: bool)
        ensures
            r == self.translatable,
    {
        self.translatable
    }
}

impl Directory {
    /// An empty directory at `path`, named after the last component of `path`.
    pub fn new(path: FsPath) -> (r: Directory)
        ensures
            r.name@ == last_name(path@),
            r.path@ == path@,
            r.dirs@.len() == 0,
            r.files@.len() == 0,
    {
        let name = path.file_name();
        Directory { name, path, dirs: Vec::new(), files: Vec::new() }
    }

    /// A copy of this tree.
    pub fn duplicate(&self) -> (r: Directory)
        ensures
            same_tree(*self, r),
        decreases *self,
    {
        let mut files: Vec<File> = Vec::new();
        let mut i: usize = 0;
        while i < self.files.len()
            invariant
                i <= self.files@.len(),
                files@.len() == i,
                forall|i2: int|
                    0 <= i2 < i ==> (#[trigger] self.files@[i2]).name@ == files@[i2].name@
                        && self.files@[i2].path@ == files@[i2].path@
                        && self.files@[i2].translatable == files@[i2].translatable,
            decreases self.files@.len() - i,
        {
            let f = &self.files[i];
            files.push(File { name: f.name.clone(), path: f.path.duplicate(), translatable: f.translatable });
            i = i + 1;
        }
        let mut dirs: Vec<Directory> = Vec::new();
        let mut j: usize = 0;
        while j < self.dirs.len()
            invariant
                j <= self.dirs@.len(),
                dirs@.len() == j,
                forall|j2: int| 0 <= j2 < j ==> same_tree(#[trigger] self.dirs@[j2], dirs@[j2]),
            decreases self.dirs@.len() - j,
        {
            dirs.push(self.dirs[j].duplicate());
            j = j + 1;
        }
        Directory { name: self.name.clone(), path: self.path.duplicate(), dirs, files }
    }

    pub fn get_dir_name(&self) -> (r: String)
        ensures
            r@ == self.name@,
    {
        self.name.clone()
    }

    pub fn get_path(&self) -> (r: FsPath)
        ensures
            r@ == self.path@,
    {
        self.path.duplicate()
    }

    pub fn get_files_as_ref(&self) -> (r: &Vec<File>)
        ensures
            r@ == self.files@,
    {
        &self.files
    }

    pub fn get_dirs_as_ref(&self) -> (r: &Vec<Directory>)
        ensures
            r@ == self.dirs@,
    {
        &self.dirs
    }
}

} // verus!
