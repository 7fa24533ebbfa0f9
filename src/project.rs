use vstd::prelude::*;

use crate::config::{
    flag_update, same_config, source_set, AddTranslatableFileError, LangDir, Language, ProjectConfig,
};
use crate::fspath::FsPath;
use crate::locator::has_flagged;
use crate::mirror::{
    copy_step, copy_untranslatable_files, dir_step, law_flag_precision, law_structural_mirroring,
    lemma_contains_concat, steps_of, tree_steps, CopyFileDirError, MirrorAction, MirrorStep,
};
use crate::snapshot::{has_dir, well_formed, Directory};

verus! {

/// The name of the file, in the project's root directory, that holds the project's state.
pub const CONFIG_FILE_NAME: &'static str = "trans_conf.json";

/// What the filesystem holds at the path of a prospective source directory.
pub enum DirProbe {
    Missing,
    NotDirectory,
    /// A directory, with its snapshot.
    Directory(Directory),
}

/// Why a source directory could not be set.
#[derive(Debug, PartialEq, Eq)]
pub enum SetSourceDirError {
    DirectoryDoesNotExist,
    NotDirectory,
}

/// Why a target language could not be added.
#[derive(Debug, PartialEq, Eq)]
pub enum AddLanguageError {
    /// The directory for the language is already there.
    LangDirExists,
    /// The project has no source directory yet.
    NoSourceLang,
    /// The language is the source language or already a target language.
    LangAlreadyInTheProj,
}

/// Why a sync pass could not be planned.
#[derive(Debug, PartialEq, Eq)]
pub enum SyncFilesError {
    /// The project has no source directory yet.
    NoSourceLang,
    /// The project has no target language.
    NoTransLangs,
    /// The source snapshot does not fit the source directory.
    CopyError(CopyFileDirError),
}

/// Whether language code `code` is the source language of `cfg` or one of its targets.
pub open spec fn lang_taken(cfg: ProjectConfig, code: Seq<char>) -> bool {
    ||| (cfg.src_dir_spec() is Some && cfg.src_dir_spec()->Some_0.language.code@ == code)
    ||| exists|i: int|
        0 <= i < cfg.lang_dirs_spec().len() && (#[trigger] cfg.lang_dirs_spec()[i]).language.code@
            == code
}

/// The roots of the target directories `lang_dirs` in the project root `root`.
pub open spec fn target_roots(root: Seq<Seq<char>>, lang_dirs: Seq<LangDir>) -> Seq<Seq<Seq<char>>> {
    lang_dirs.map_values(|ld: LangDir| root.push(ld.dir.name@))
}

/// The steps that mirror `d` from below `from` into each of the first `k` roots of
/// `tos`, one target after the other. `None` when `d` does not fit `from`.
pub open spec fn targets_steps(from: Seq<Seq<char>>, tos: Seq<Seq<Seq<char>>>, d: Directory, k: int) -> Option<Seq<MirrorStep>>
    decreases k,
{
    if k <= 0 {
        Some(Seq::empty())
    } else {
        match (targets_steps(from, tos, d, k - 1), tree_steps(from, tos[k - 1], d)) {
            (Some(a), Some(b)) => Some(a + b),
            _ => None,
        }
    }
}

/// A project for translation: the directory it lives in and its state.
pub struct Project {
    pub(crate) path_to_root: FsPath,
    pub(crate) config: ProjectConfig,
}

impl Project {
    pub open(crate) spec fn root_spec(&self) -> Seq<Seq<char>> {
        self.path_to_root@
    }

    pub open(crate) spec fn config_spec(&self) -> ProjectConfig {
        self.config
    }

    /// The project whose root directory is `path_to_root` and whose state is `config`.
    pub fn new(path_to_root: FsPath, config: ProjectConfig) -> (r: Project)
        ensures
            r.root_spec() == path_to_root@,
            r.config_spec() == config,
    {
        Project { path_to_root, config }
    }

    /// The path of the project's root directory.
    pub fn get_root_path(&self) -> (r: FsPath)
        ensures
            r@ == self.root_spec(),
    {
        self.path_to_root.duplicate()
    }

    pub fn get_config_as_ref(&self) -> (r: &ProjectConfig)
        ensures
            *r == self.config_spec(),
    {
        &self.config
    }

    /// A copy of the project's state.
    pub fn get_config(&self) -> (r: ProjectConfig)
        ensures
            same_config(self.config_spec(), r),
    {
        self.config.duplicate()
    }

    /// The project's state, given up by the project.
    pub fn into_config(self) -> (r: ProjectConfig)
        ensures
            r == self.config_spec(),
    {
        self.config
    }

    /// The path of the file that holds the project's state.
    pub fn get_config_file_path(&self) -> (r: FsPath)
        ensures
            r@ == self.root_spec().push(CONFIG_FILE_NAME@),
    {
        self.path_to_root.join_name(CONFIG_FILE_NAME)
    }

    /// The source language, if a source directory is set.
    pub fn get_src_lang(&self) -> (r: Option<Language>)
        ensures
            match self.config_spec().src_dir_spec() {
                None => r is None,
                Some(src) => r is Some && r->Some_0.code@ == src.language.code@,
            },
    {
        match self.config.get_src_dir_as_ref() {
            None => None,
            Some(src) => Some(src.get_lang()),
        }
    }

    /// The path of the directory `dir_name` of the project's root.
    pub fn source_dir_path(&self, dir_name: &str) -> (r: FsPath)
        ensures
            r@ == self.root_spec().push(dir_name@),
    {
        self.path_to_root.join_name(dir_name)
    }

    /// Makes the directory that `probe` found the source directory, in language `lang`.
    /// Setting the current source directory again keeps the flags of its files.
    pub fn set_source_dir(&mut self, probe: DirProbe, lang: Language) -> (r: Result<(), SetSourceDirError>)
        ensures
            final(self).root_spec() == old(self).root_spec(),
            match probe {
                DirProbe::Missing => r == Err::<(), SetSourceDirError>(
                    SetSourceDirError::DirectoryDoesNotExist,
                ) && *final(self) == *old(self),
                DirProbe::NotDirectory => r == Err::<(), SetSourceDirError>(
                    SetSourceDirError::NotDirectory,
                ) && *final(self) == *old(self),
                DirProbe::Directory(d) => {
                    &&& r is Ok
                    &&& source_set(
                        old(self).config_spec().src_dir_spec(),
                        final(self).config_spec().src_dir_spec(),
                        d,
                        lang,
                    )
                    &&& final(self).config_spec().name_spec() == old(self).config_spec().name_spec()
                    &&& final(self).config_spec().lang_dirs_spec() == old(
                        self,
                    ).config_spec().lang_dirs_spec()
                },
            },
    {
        match probe {
            DirProbe::Missing => Err(SetSourceDirError::DirectoryDoesNotExist),
            DirProbe::NotDirectory => Err(SetSourceDirError::NotDirectory),
            DirProbe::Directory(d) => {
                self.config.set_src_dir(d, lang);
                Ok(())
            },
        }
    }

    /// The path of the directory of language `lang`: the project's name followed by the
    /// language's suffix, in the project's root.
    pub fn lang_dir_path(&self, lang: &Language) -> (r: FsPath)
        ensures
            r@ == self.root_spec().push(self.config_spec().name_spec() + seq!['_'] + lang.code@),
    {
        let mut dir_name = self.config.get_name();
        let suffix = lang.get_dir_suffix();
        dir_name.append(suffix.as_str());
        assert(dir_name@ =~= self.config_spec().name_spec() + seq!['_'] + lang.code@);
        self.path_to_root.join_name(dir_name.as_str())
    }

    /// Whether `lang` may become a target language of the project.
    fn check_lang(&self, lang: &Language) -> (r: Result<(), AddLanguageError>)
        ensures
            self.config_spec().src_dir_spec() is None ==> r == Err::<(), AddLanguageError>(
                AddLanguageError::NoSourceLang,
            ),
            self.config_spec().src_dir_spec() is Some ==> (r is Ok <==> !lang_taken(
                self.config_spec(),
                lang.code@,
            )),
            self.config_spec().src_dir_spec() is Some && r is Err ==> r
                == Err::<(), AddLanguageError>(AddLanguageError::LangAlreadyInTheProj),
    {
        let src = match self.config.get_src_dir_as_ref() {
            None => {
                return Err(AddLanguageError::NoSourceLang);
            },
            Some(src) => src,
        };
        if src.language.same_as(lang) {
            return Err(AddLanguageError::LangAlreadyInTheProj);
        }
        let lang_dirs = self.config.get_lang_dirs_as_ref();
        let mut i: usize = 0;
        while i < lang_dirs.len()
            invariant
                i <= lang_dirs@.len(),
                lang_dirs@ == self.config_spec().lang_dirs_spec(),
                self.config_spec().src_dir_spec() == Some(*src),
                src.language.code@ != lang.code@,
                forall|k: int| 0 <= k < i ==> (#[trigger] lang_dirs@[k]).language.code@ != lang.code@,
            decreases lang_dirs@.len() - i,
        {
            if lang_dirs[i].language.same_as(lang) {
                return Err(AddLanguageError::LangAlreadyInTheProj);
            }
            i = i + 1;
        }
        Ok(())
    }

    /// Checks that `lang` can be added as a target language before its directory is
    /// created; `path_exists` tells whether its directory is already there. Returns the
    /// path at which to create it.
    pub fn check_new_lang(&self, lang: &Language, path_exists: bool) -> (r: Result<FsPath, AddLanguageError>)
        ensures
            path_exists ==> r == Err::<FsPath, AddLanguageError>(AddLanguageError::LangDirExists),
            !path_exists && self.config_spec().src_dir_spec() is None ==> r == Err::<
                FsPath,
                AddLanguageError,
            >(AddLanguageError::NoSourceLang),
            !path_exists && self.config_spec().src_dir_spec() is Some ==> (r is Ok <==> !lang_taken(
                self.config_spec(),
                lang.code@,
            )),
            !path_exists && self.config_spec().src_dir_spec() is Some && r is Err ==> r == Err::<
                FsPath,
                AddLanguageError,
            >(AddLanguageError::LangAlreadyInTheProj),
            r is Ok ==> r->Ok_0@ == self.root_spec().push(
                self.config_spec().name_spec() + seq!['_'] + lang.code@,
            ),
    {
        if path_exists {
            return Err(AddLanguageError::LangDirExists);
        }
        match self.check_lang(lang) {
            Err(e) => Err(e),
            Ok(()) => Ok(self.lang_dir_path(lang)),
        }
    }

    /// Adds `lang` as a target language whose directory has the snapshot `tree`, unless
    /// the project has no source directory or already has the language.
    pub fn add_lang(&mut self, lang: Language, tree: Directory) -> (r: Result<(), AddLanguageError>)
        ensures
            final(self).root_spec() == old(self).root_spec(),
            old(self).config_spec().src_dir_spec() is None ==> r == Err::<(), AddLanguageError>(
                AddLanguageError::NoSourceLang,
            ),
            old(self).config_spec().src_dir_spec() is Some ==> (r is Ok <==> !lang_taken(
                old(self).config_spec(),
                lang.code@,
            )),
            r is Err ==> *final(self) == *old(self),
            old(self).config_spec().src_dir_spec() is Some && r is Err ==> r == Err::<
                (),
                AddLanguageError,
            >(AddLanguageError::LangAlreadyInTheProj),
            r is Ok ==> final(self).config_spec().lang_dirs_spec() == old(
                self,
            ).config_spec().lang_dirs_spec().push(LangDir { dir: tree, language: lang }),
            r is Ok ==> final(self).config_spec().name_spec() == old(self).config_spec().name_spec(),
            r is Ok ==> final(self).config_spec().src_dir_spec() == old(
                self,
            ).config_spec().src_dir_spec(),
    {
        match self.check_lang(&lang) {
            Err(e) => Err(e),
            Ok(()) => {
                self.config.add_lang(tree, lang);
                Ok(())
            },
        }
    }

    /// Plans a sync pass: the actions that mirror the source snapshot into every target
    /// directory, one target after the other, in the order the targets were added.
    pub fn sync_files(&self) -> (r: Result<Vec<MirrorAction>, SyncFilesError>)
        ensures
            match self.config_spec().src_dir_spec() {
                None => r == Err::<Vec<MirrorAction>, SyncFilesError>(SyncFilesError::NoSourceLang),
                Some(src) => if self.config_spec().lang_dirs_spec().len() == 0 {
                    r == Err::<Vec<MirrorAction>, SyncFilesError>(SyncFilesError::NoTransLangs)
                } else {
                    match targets_steps(
                        self.root_spec().push(src.dir.name@),
                        target_roots(self.root_spec(), self.config_spec().lang_dirs_spec()),
                        src.dir,
                        self.config_spec().lang_dirs_spec().len() as int,
                    ) {
                        None => r == Err::<Vec<MirrorAction>, SyncFilesError>(
                            SyncFilesError::CopyError(CopyFileDirError::StripPathError),
                        ),
                        Some(s) => r is Ok && steps_of(r->Ok_0@) == s,
                    }
                },
            },
    {
        let src = match self.config.get_src_dir_as_ref() {
            None => {
                return Err(SyncFilesError::NoSourceLang);
            },
            Some(src) => src,
        };
        let lang_dirs = self.config.get_lang_dirs_as_ref();
        if lang_dirs.len() == 0 {
            return Err(SyncFilesError::NoTransLangs);
        }
        let ghost root = self.root_spec();
        let ghost from = root.push(src.dir.name@);
        let ghost tos = target_roots(root, lang_dirs@);
        let mut actions: Vec<MirrorAction> = Vec::new();
        assert(steps_of(actions@) =~= Seq::<MirrorStep>::empty());
        let mut i: usize = 0;
        while i < lang_dirs.len()
            invariant
                i <= lang_dirs@.len(),
                lang_dirs@ == self.config_spec().lang_dirs_spec(),
                tos == target_roots(root, lang_dirs@),
                root == self.root_spec(),
                self.config_spec().src_dir_spec() == Some(*src),
                from == root.push(src.dir.name@),
                targets_steps(from, tos, src.dir, i as int) == Some(steps_of(actions@)),
            decreases lang_dirs@.len() - i,
        {
            let target_name = &lang_dirs[i].dir.name;
            assert(tos[i as int] == root.push(target_name@));
            match copy_untranslatable_files(
                &self.path_to_root,
                src.dir.name.as_str(),
                target_name.as_str(),
                &src.dir,
            ) {
                Err(e) => {
                    assert(tree_steps(from, tos[i as int], src.dir) is None);
                    assert(targets_steps(from, tos, src.dir, i + 1) is None);
                    proof {
                        lemma_targets_fail_stays(from, tos, src.dir, i + 1, lang_dirs@.len() as int);
                    }
                    return Err(SyncFilesError::CopyError(e));
                },
                Ok(mut more) => {
                    let ghost before = steps_of(actions@);
                    actions.append(&mut more);
                    assert(steps_of(actions@) =~= before + tree_steps(from, tos[i as int], src.dir)->Some_0);
                },
            }
            i = i + 1;
        }
        Ok(actions)
    }

    /// Replaces the snapshot of each target directory, in order, by the one in `trees`.
    pub fn analyze_lang_dirs(&mut self, trees: Vec<Directory>)
        requires
            trees@.len() == old(self).config_spec().lang_dirs_spec().len(),
        ensures
            final(self).root_spec() == old(self).root_spec(),
            final(self).config_spec().lang_dirs_spec().len() == old(
                self,
            ).config_spec().lang_dirs_spec().len(),
            forall|i: int|
                0 <= i < trees@.len() ==> (#[trigger] final(self).config_spec().lang_dirs_spec()[i]).dir
                    == trees@[i] && final(self).config_spec().lang_dirs_spec()[i].language == old(
                    self,
                ).config_spec().lang_dirs_spec()[i].language,
            final(self).config_spec().name_spec() == old(self).config_spec().name_spec(),
            final(self).config_spec().src_dir_spec() == old(self).config_spec().src_dir_spec(),
    {
        self.config.analyze_lang_dirs(trees);
    }

    /// Marks the source file at `path` as translatable.
    pub fn make_translatable_file(&mut self, path: &FsPath) -> (r: Result<(), AddTranslatableFileError>)
        ensures
            final(self).root_spec() == old(self).root_spec(),
            flag_update(old(self).config_spec(), final(self).config_spec(), path@, true, r),
    {
        self.config.make_translatable_file(path)
    }

    /// Marks the source file at `path` as not translatable.
    pub fn make_untranslatable_file(&mut self, path: &FsPath) -> (r: Result<(), AddTranslatableFileError>)
        ensures
            final(self).root_spec() == old(self).root_spec(),
            flag_update(old(self).config_spec(), final(self).config_spec(), path@, false, r),
    {
        self.config.make_untranslatable_file(path)
    }
}

/// A sync pass over a well-formed snapshot of the source directory `from`, into the
/// first `k` target roots of `tos`, goes through; in every one of those targets it copies
/// every untranslatable file to the place with the same relative path and creates the
/// counterpart of every subdirectory; and each of its copies reads an untranslatable
/// file and writes that file's counterpart in one of the targets, so a path that holds
/// only translatable files is never read.
pub proof fn law_sync_precision(from: Seq<Seq<char>>, tos: Seq<Seq<Seq<char>>>, d: Directory, k: int)
    requires
        well_formed(d),
        d.path@ == from,
        0 <= k <= tos.len(),
    ensures
        targets_steps(from, tos, d, k) is Some,
        forall|i: int, q: Seq<Seq<char>>|
            0 <= i < k && #[trigger] has_flagged(d, q, false) ==> targets_steps(
                from,
                tos,
                d,
                k,
            )->Some_0.contains(#[trigger] copy_step(q, from, tos[i])),
        forall|i: int, p: Seq<Seq<char>>|
            0 <= i < k && #[trigger] has_dir(d, p) ==> targets_steps(from, tos, d, k)->Some_0.contains(
                #[trigger] dir_step(p, from, tos[i]),
            ),
        forall|m: int|
            0 <= m < targets_steps(from, tos, d, k)->Some_0.len() && (#[trigger] targets_steps(
                from,
                tos,
                d,
                k,
            )->Some_0[m]) is Copy ==> has_flagged(
                d,
                targets_steps(from, tos, d, k)->Some_0[m]->Copy_from,
                false,
            ) && exists|i: int|
                0 <= i < k && targets_steps(from, tos, d, k)->Some_0[m] == #[trigger] copy_step(
                    targets_steps(from, tos, d, k)->Some_0[m]->Copy_from,
                    from,
                    tos[i],
                ),
    decreases k,
{
    if k > 0 {
        law_sync_precision(from, tos, d, k - 1);
        law_flag_precision(from, tos[k - 1], d);
        law_structural_mirroring(from, tos[k - 1], d);
        let prev = targets_steps(from, tos, d, k - 1)->Some_0;
        let t = tree_steps(from, tos[k - 1], d)->Some_0;
        let s = targets_steps(from, tos, d, k)->Some_0;
        assert(s == prev + t);
        assert forall|i: int, q: Seq<Seq<char>>|
            0 <= i < k && #[trigger] has_flagged(d, q, false) implies s.contains(
                #[trigger] copy_step(q, from, tos[i]),
            ) by {
            lemma_contains_concat(prev, t, copy_step(q, from, tos[i]));
        }
        assert forall|i: int, p: Seq<Seq<char>>|
            0 <= i < k && #[trigger] has_dir(d, p) implies s.contains(
                #[trigger] dir_step(p, from, tos[i]),
            ) by {
            lemma_contains_concat(prev, t, dir_step(p, from, tos[i]));
        }
        assert forall|m: int| 0 <= m < s.len() && (#[trigger] s[m]) is Copy implies has_flagged(
            d,
            s[m]->Copy_from,
            false,
        ) && exists|i: int| 0 <= i < k && s[m] == #[trigger] copy_step(s[m]->Copy_from, from, tos[i]) by {
            if m < prev.len() {
                assert(s[m] == prev[m]);
                assert(prev[m] is Copy);
            } else {
                assert(s[m] == t[m - prev.len()]);
                assert(t[m - prev.len()] is Copy);
                assert(s[m] == copy_step(s[m]->Copy_from, from, tos[k - 1]));
            }
        }
    }
}

proof fn lemma_targets_fail_stays(
    from: Seq<Seq<char>>,
    tos: Seq<Seq<Seq<char>>>,
    d: Directory,
    k: int,
    k2: int,
)
    requires
        k <= k2,
        targets_steps(from, tos, d, k) is None,
    ensures
        targets_steps(from, tos, d, k2) is None,
    decreases k2 - k,
{
    if k < k2 {
        lemma_targets_fail_stays(from, tos, d, k, k2 - 1);
    }
}

} // verus!
