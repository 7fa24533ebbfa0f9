use vstd::prelude::*;

use crate::fspath::FsPath;
use crate::locator::{carry_flags, find_file_and_apply, flags_carried, set_first};
use crate::snapshot::{has_file, same_tree, Directory};

verus! {

/// A language of the project, known by its code.
pub struct Language {
    pub code: String,
}

impl PartialEq for Language {
    fn eq(&self, other: &Language) -> (r: bool) {
        self.code == other.code
    }
}

impl vstd::std_specs::cmp::PartialEqSpecImpl for Language {
    open spec fn obeys_eq_spec() -> bool {
        true
    }

    open spec fn eq_spec(&self, other: &Language) -> bool {
        self.code@ == other.code@
    }
}

impl Language {
    pub fn new(code: &str) -> (r: Language)
        ensures
            r.code@ == code@,
    {
        Language { code: code.to_string() }
    }

    /// A copy of this language.
    pub fn duplicate(&self) -> (r: Language)
        ensures
            r.code@ == self.code@,
    {
        Language { code: self.code.clone() }
    }

    /// Whether the two languages are the same.
    pub fn same_as(&self, other: &Language) -> (r: bool)
        ensures
            r == (self.code@ == other.code@),
    {
        self.code == other.code
    }

    /// What the name of a directory for this language ends with: an underscore and the
    /// language's code.
    pub fn get_dir_suffix(&self) -> (r: String)
        ensures
            r@ == seq!['_'] + self.code@,
    {
        let mut r = "_".to_string();
        proof {
            reveal_strlit("_");
        }
        r.append(self.code.as_str());
        r
    }
}

/// A directory snapshot that belongs to one language of the project.
pub struct LangDir {
    pub dir: Directory,
    pub language: Language,
}

impl LangDir {
    pub fn new(dir: Directory, lang: Language) -> (r: LangDir)
        ensures
            r.dir == dir,
            r.language == lang,
    {
        LangDir { dir, language: lang }
    }

    /// A copy of this language directory.
    pub fn duplicate(&self) -> (r: LangDir)
        ensures
            same_lang_dir(*self, r),
    {
        LangDir { dir: self.dir.duplicate(), language: self.language.duplicate() }
    }

    pub fn get_lang(&self) -> (r: Language)
        ensures
            r.code@ == self.language.code@,
    {
        self.language.duplicate()
    }

    pub fn get_dir_as_ref(&self) -> (r: &Directory)
        ensures
            *r == self.dir,
    {
        &self.dir
    }

    pub fn set_dir(&mut self, dir: Directory)
        ensures
            final(self).dir == dir,
            final(self).language == old(self).language,
    {
        self.dir = dir;
    }
}

/// Whether `a` and `b` have the same language and the same tree.
pub open spec fn same_lang_dir(a: LangDir, b: LangDir) -> bool {
    a.language.code@ == b.language.code@ && same_tree(a.dir, b.dir)
}

/// Whether `a` and `b` hold the same project: name, source and targets, in order.
pub open spec fn same_config(a: ProjectConfig, b: ProjectConfig) -> bool {
    &&& a.name_spec() == b.name_spec()
    &&& a.lang_dirs_spec().len() == b.lang_dirs_spec().len()
    &&& forall|i: int|
        0 <= i < a.lang_dirs_spec().len() ==> same_lang_dir(
            #[trigger] a.lang_dirs_spec()[i],
            b.lang_dirs_spec()[i],
        )
    &&& a.src_dir_spec() is Some <==> b.src_dir_spec() is Some
    &&& a.src_dir_spec() is Some ==> same_lang_dir(a.src_dir_spec()->Some_0, b.src_dir_spec()->Some_0)
}

/// Whether setting the snapshot `d` of language `lang` as the source turns the source
/// `old` into `new`: a new scan of the current source directory keeps the flags of the
/// files still present, by path; any other snapshot is taken as it is.
pub open spec fn source_set(old: Option<LangDir>, new: Option<LangDir>, d: Directory, lang: Language) -> bool {
    if old is Some && old->Some_0.dir.path@ == d.path@ {
        &&& new is Some
        &&& new->Some_0.language == lang
        &&& flags_carried(d, new->Some_0.dir, old->Some_0.dir)
    } else {
        new == Some(LangDir { dir: d, language: lang })
    }
}

/// Why a file's translatability could not be changed.
#[derive(Debug, PartialEq, Eq)]
pub enum AddTranslatableFileError {
    /// The project has no source directory yet.
    NoSourceLang,
    /// No file of the source snapshot has the path.
    NoFile,
}

/// The state of a project: its name, its source directory and its target directories,
/// the latter in the order they were added.
pub struct ProjectConfig {
    pub(crate) name: String,
    pub(crate) lang_dirs: Vec<LangDir>,
    pub(crate) src_dir: Option<LangDir>,
}

impl ProjectConfig {
    pub open(crate) spec fn name_spec(&self) -> Seq<char> {
        self.name@
    }

    pub open(crate) spec fn lang_dirs_spec(&self) -> Seq<LangDir> {
        self.lang_dirs@
    }

    pub open(crate) spec fn src_dir_spec(&self) -> Option<LangDir> {
        self.src_dir
    }

    /// A project named `proj_name` with no directory yet.
    pub fn new(proj_name: &str) -> (r: ProjectConfig)
        ensures
            r.name_spec() == proj_name@,
            r.lang_dirs_spec().len() == 0,
            r.src_dir_spec() is None,
    {
        ProjectConfig { name: proj_name.to_string(), lang_dirs: Vec::new(), src_dir: None }
    }

    /// A project from its parts.
    pub fn from_parts(name: String, lang_dirs: Vec<LangDir>, src_dir: Option<LangDir>) -> (r: ProjectConfig)
        ensures
            r.name_spec() == name@,
            r.lang_dirs_spec() == lang_dirs@,
            r.src_dir_spec() == src_dir,
    {
        ProjectConfig { name, lang_dirs, src_dir }
    }

    /// The parts of this project.
    pub fn into_parts(self) -> (r: (String, Vec<LangDir>, Option<LangDir>))
        ensures
            r.0@ == self.name_spec(),
            r.1@ == self.lang_dirs_spec(),
            r.2 == self.src_dir_spec(),
    {
        (self.name, self.lang_dirs, self.src_dir)
    }

    /// A copy of this project's state.
    pub fn duplicate(&self) -> (r: ProjectConfig)
        ensures
            same_config(*self, r),
    {
        let mut lang_dirs: Vec<LangDir> = Vec::new();
        let mut i: usize = 0;
        while i < self.lang_dirs.len()
            invariant
                i <= self.lang_dirs@.len(),
                lang_dirs@.len() == i,
                forall|i2: int| 0 <= i2 < i ==> same_lang_dir(#[trigger] self.lang_dirs@[i2], lang_dirs@[i2]),
            decreases self.lang_dirs@.len() - i,
        {
            lang_dirs.push(self.lang_dirs[i].duplicate());
            i = i + 1;
        }
        let src_dir = match &self.src_dir {
            None => None,
            Some(src) => Some(src.duplicate()),
        };
        ProjectConfig { name: self.name.clone(), lang_dirs, src_dir }
    }

    pub fn get_name(&self) -> (r: String)
        ensures
            r@ == self.name_spec(),
    {
        self.name.clone()
    }

    pub fn get_src_dir_as_ref(&self) -> (r: &Option<LangDir>)
        ensures
            *r == self.src_dir_spec(),
    {
        &self.src_dir
    }

    pub fn get_lang_dirs_as_ref(&self) -> (r: &Vec<LangDir>)
        ensures
            r@ == self.lang_dirs_spec(),
    {
        &self.lang_dirs
    }

    /// Makes the snapshot `dir` the source directory, in language `lang`. When it is a
    /// new scan of the current source directory (the same path), the translatability of
    /// every file still present is kept and new files are untranslatable; otherwise the
    /// snapshot is taken as it is.
    pub fn set_src_dir(&mut self, dir: Directory, lang: Language)
        ensures
            source_set(old(self).src_dir_spec(), final(self).src_dir_spec(), dir, lang),
            final(self).name_spec() == old(self).name_spec(),
            final(self).lang_dirs_spec() == old(self).lang_dirs_spec(),
    {
        let mut dir = dir;
        match &self.src_dir {
            Some(prev) => {
                if prev.dir.path.same_as(&dir.path) {
                    carry_flags(&mut dir, &prev.dir);
                    self.src_dir = Some(LangDir::new(dir, lang));
                    return;
                }
            },
            None => {},
        }
        self.src_dir = Some(LangDir::new(dir, lang));
    }

    /// Adds the snapshot `dir` as the target directory of language `lang`, after the others.
    pub fn add_lang(&mut self, dir: Directory, lang: Language)
        ensures
            final(self).lang_dirs_spec() == old(self).lang_dirs_spec().push(
                LangDir { dir, language: lang },
            ),
            final(self).name_spec() == old(self).name_spec(),
            final(self).src_dir_spec() == old(self).src_dir_spec(),
    {
        let lang_dir = LangDir::new(dir, lang);
        self.lang_dirs.push(lang_dir);
    }

    /// Replaces the snapshot of each target directory, in order, by the one in `trees`;
    /// the languages stay.
    pub fn analyze_lang_dirs(&mut self, trees: Vec<Directory>)
        requires
            trees@.len() == old(self).lang_dirs_spec().len(),
        ensures
            final(self).lang_dirs_spec().len() == old(self).lang_dirs_spec().len(),
            forall|i: int|
                0 <= i < trees@.len() ==> (#[trigger] final(self).lang_dirs_spec()[i]).dir
                    == trees@[i] && final(self).lang_dirs_spec()[i].language
                    == old(self).lang_dirs_spec()[i].language,
            final(self).name_spec() == old(self).name_spec(),
            final(self).src_dir_spec() == old(self).src_dir_spec(),
    {
        let ghost given = trees@;
        let mut trees = trees;
        let mut i: usize = self.lang_dirs.len();
        while i > 0
            invariant
                i <= self.lang_dirs@.len(),
                self.lang_dirs@.len() == old(self).lang_dirs@.len(),
                given.len() == self.lang_dirs@.len(),
                trees@ == given.subrange(0, i as int),
                self.name == old(self).name,
                self.src_dir == old(self).src_dir,
                forall|k: int|
                    0 <= k < self.lang_dirs@.len() ==> (#[trigger] self.lang_dirs@[k]).language
                        == old(self).lang_dirs@[k].language,
                forall|k: int|
                    i <= k < self.lang_dirs@.len() ==> (#[trigger] self.lang_dirs@[k]).dir
                        == given[k],
            decreases i,
        {
            let tree = trees.pop().unwrap();
            i = i - 1;
            self.lang_dirs[i].set_dir(tree);
            assert(trees@ =~= given.subrange(0, i as int));
        }
    }

    /// Marks the file of the source snapshot at `path` as translatable.
    pub fn make_translatable_file(&mut self, path: &FsPath) -> (r: Result<(), AddTranslatableFileError>)
        ensures
            flag_update(*old(self), *final(self), path@, true, r),
    {
        self.set_file_flag(path, true)
    }

    /// Marks the file of the source snapshot at `path` as not translatable.
    pub fn make_untranslatable_file(&mut self, path: &FsPath) -> (r: Result<(), AddTranslatableFileError>)
        ensures
            flag_update(*old(self), *final(self), path@, false, r),
    {
        self.set_file_flag(path, false)
    }

    fn set_file_flag(&mut self, path: &FsPath, translatable: bool) -> (r: Result<(), AddTranslatableFileError>)
        ensures
            flag_update(*old(self), *final(self), path@, translatable, r),
    {
        match &mut self.src_dir {
            None => Err(AddTranslatableFileError::NoSourceLang),
            Some(lang_dir) => {
                if find_file_and_apply(&mut lang_dir.dir, path, translatable) {
                    Ok(())
                } else {
                    Err(AddTranslatableFileError::NoFile)
                }
            },
        }
    }
}

/// What setting the flag of the source file at `p` to `b` does, from `old` to `new` with
/// the outcome `r`: without a source directory it fails with `NoSourceLang`; when no
/// source file has the path it fails with `NoFile`; otherwise it succeeds and the flag of
/// the first source file at `p`, in preorder, is `b`. Nothing else changes; on failure
/// nothing does.
pub open spec fn flag_update(
    old: ProjectConfig,
    new: ProjectConfig,
    p: Seq<Seq<char>>,
    b: bool,
    r: Result<(), AddTranslatableFileError>,
) -> bool {
    &&& new.name_spec() == old.name_spec()
    &&& new.lang_dirs_spec() == old.lang_dirs_spec()
    &&& match old.src_dir_spec() {
        None => r == Err::<(), AddTranslatableFileError>(AddTranslatableFileError::NoSourceLang)
            && new.src_dir_spec() is None,
        Some(src) => {
            &&& new.src_dir_spec() is Some
            &&& new.src_dir_spec()->Some_0.language == src.language
            &&& if has_file(src.dir, p) {
                r is Ok && set_first(src.dir, new.src_dir_spec()->Some_0.dir, p, b)
            } else {
                r == Err::<(), AddTranslatableFileError>(AddTranslatableFileError::NoFile)
                    && new.src_dir_spec() == old.src_dir_spec()
            }
        },
    }
}

} // verus!
