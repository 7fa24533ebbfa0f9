use transync::builder::{build_tree, ScanEntry};
use transync::config::{AddTranslatableFileError, Language, ProjectConfig};
use transync::fspath::FsPath;
use transync::locator::{contains_file, find_file_and_apply};
use transync::mirror::{copy_untranslatable_files, CopyFileDirError, MirrorAction};
use transync::project::{
    AddLanguageError, DirProbe, Project, SetSourceDirError, SyncFilesError, CONFIG_FILE_NAME,
};
use transync::snapshot::Directory;

fn path(parts: &[&str]) -> FsPath {
    FsPath::from_parts(parts.iter().map(|s| s.to_string()).collect())
}

fn parts(p: &FsPath) -> Vec<&str> {
    p.parts.iter().map(|s| s.as_str()).collect()
}

fn file(name: &str) -> ScanEntry {
    ScanEntry::File(name.to_string())
}

fn dir(name: &str, children: Vec<ScanEntry>) -> ScanEntry {
    ScanEntry::Dir(name.to_string(), children)
}

/// The listing of `src/`: `a.txt`, `b.txt` and `img/logo.png`.
fn source_listing() -> Vec<ScanEntry> {
    vec![file("a.txt"), file("b.txt"), dir("img", vec![file("logo.png")])]
}

fn describe(actions: &[MirrorAction]) -> Vec<String> {
    actions
        .iter()
        .map(|a| match a {
            MirrorAction::CopyFile { from, to } => {
                format!("copy {} -> {}", parts(from).join("/"), parts(to).join("/"))
            }
            MirrorAction::EnsureDir { path } => format!("mkdir {}", parts(path).join("/")),
        })
        .collect()
}

fn project_with_source() -> Project {
    let mut project = Project::new(path(&["home", "proj"]), ProjectConfig::new("proj"));
    let tree = build_tree(path(&["home", "proj", "src"]), &source_listing());
    let r = project.set_source_dir(DirProbe::Directory(tree), Language::new("en"));
    assert_eq!(r, Ok(()));
    project
}

#[test]
fn path_operations() {
    let p = path(&["a", "b"]);
    assert_eq!(parts(&p.join_name("c")), vec!["a", "b", "c"]);
    assert_eq!(parts(&p.join(&path(&["x", "y"]))), vec!["a", "b", "x", "y"]);
    assert_eq!(p.file_name(), "b");
    assert_eq!(FsPath::root().file_name(), "");
    assert!(p.same_as(&path(&["a", "b"])));
    assert!(!p.same_as(&path(&["a", "c"])));
    assert!(!p.same_as(&path(&["a"])));
    let rel = path(&["a", "b", "c", "d"]).strip_prefix(&p).unwrap();
    assert_eq!(parts(&rel), vec!["c", "d"]);
    assert!(path(&["a", "c", "d"]).strip_prefix(&p).is_none());
    assert!(path(&["a"]).strip_prefix(&p).is_none());
    assert_eq!(parts(&p.strip_prefix(&p).unwrap()), Vec::<&str>::new());
}

#[test]
fn build_records_files_and_dirs() {
    let tree = build_tree(path(&["r", "src"]), &source_listing());
    assert_eq!(tree.get_dir_name(), "src");
    assert_eq!(parts(&tree.get_path()), vec!["r", "src"]);
    let files = tree.get_files_as_ref();
    assert_eq!(files.len(), 2);
    assert_eq!(files[0].get_name(), "a.txt");
    assert_eq!(parts(&files[0].get_path()), vec!["r", "src", "a.txt"]);
    assert!(!files[0].is_translatable());
    assert!(!files[1].is_translatable());
    let dirs = tree.get_dirs_as_ref();
    assert_eq!(dirs.len(), 1);
    assert_eq!(dirs[0].get_dir_name(), "img");
    assert_eq!(parts(&dirs[0].files[0].path), vec!["r", "src", "img", "logo.png"]);
}

#[test]
fn build_root_has_empty_name() {
    let tree = build_tree(FsPath::root(), &vec![file("x")]);
    assert_eq!(tree.get_dir_name(), "");
    assert_eq!(parts(&tree.files[0].path), vec!["x"]);
}

#[test]
fn build_keeps_empty_dirs() {
    let tree = build_tree(path(&["r"]), &vec![dir("empty", vec![])]);
    assert_eq!(tree.dirs.len(), 1);
    assert_eq!(tree.dirs[0].files.len(), 0);
    assert_eq!(tree.dirs[0].dirs.len(), 0);
}

#[test]
fn build_skips_symlinks() {
    let listing = vec![
        ScanEntry::Symlink("link_to_file".to_string()),
        file("a.txt"),
        ScanEntry::Symlink("link_to_dir".to_string()),
        ScanEntry::Other("fifo".to_string()),
        dir("d", vec![ScanEntry::Symlink("inner".to_string()), file("b.txt")]),
    ];
    let tree = build_tree(path(&["r"]), &listing);
    assert_eq!(tree.files.len(), 1);
    assert_eq!(tree.files[0].name, "a.txt");
    assert_eq!(tree.dirs.len(), 1);
    assert_eq!(tree.dirs[0].files.len(), 1);
    assert_eq!(tree.dirs[0].files[0].name, "b.txt");
    assert!(!contains_file(&tree, &path(&["r", "link_to_file"])));
    let plan = copy_untranslatable_files(&FsPath::root(), "r", "t", &tree).unwrap();
    assert!(!describe(&plan).iter().any(|s| s.contains("link")));
}

#[test]
fn rebuild_gives_same_tree() {
    let a = build_tree(path(&["r", "src"]), &source_listing());
    let b = build_tree(path(&["r", "src"]), &source_listing());
    let pa = copy_untranslatable_files(&path(&["r"]), "src", "t", &a).unwrap();
    let pb = copy_untranslatable_files(&path(&["r"]), "src", "t", &b).unwrap();
    assert_eq!(describe(&pa), describe(&pb));
}

#[test]
fn locator_finds_nested_file() {
    let mut tree = build_tree(path(&["r"]), &vec![
        dir("a", vec![file("x")]),
        dir("b", vec![dir("c", vec![file("y")])]),
    ]);
    assert!(find_file_and_apply(&mut tree, &path(&["r", "b", "c", "y"]), true));
    assert!(tree.dirs[1].dirs[0].files[0].translatable);
    assert!(!tree.dirs[0].files[0].translatable);
    assert!(find_file_and_apply(&mut tree, &path(&["r", "b", "c", "y"]), false));
    assert!(!tree.dirs[1].dirs[0].files[0].translatable);
}

#[test]
fn locator_misses_unknown_path() {
    let mut tree = build_tree(path(&["r"]), &source_listing());
    assert!(!find_file_and_apply(&mut tree, &path(&["r", "nope.txt"]), true));
    assert!(!find_file_and_apply(&mut tree, &path(&["r", "img"]), true));
    assert!(!tree.files.iter().any(|f| f.translatable));
    assert!(!tree.dirs[0].files[0].translatable);
}

#[test]
fn mirror_plan_skips_translatable() {
    let mut tree = build_tree(path(&["r", "src"]), &source_listing());
    assert!(find_file_and_apply(&mut tree, &path(&["r", "src", "b.txt"]), true));
    let plan = copy_untranslatable_files(&path(&["r"]), "src", "fr", &tree).unwrap();
    assert_eq!(
        describe(&plan),
        vec![
            "copy r/src/a.txt -> r/fr/a.txt",
            "mkdir r/fr/img",
            "copy r/src/img/logo.png -> r/fr/img/logo.png",
        ]
    );
}

#[test]
fn mirror_plan_untranslatable_again_copies() {
    let mut tree = build_tree(path(&["r", "src"]), &source_listing());
    assert!(find_file_and_apply(&mut tree, &path(&["r", "src", "a.txt"]), true));
    assert!(find_file_and_apply(&mut tree, &path(&["r", "src", "a.txt"]), false));
    let plan = copy_untranslatable_files(&path(&["r"]), "src", "fr", &tree).unwrap();
    assert!(describe(&plan).contains(&"copy r/src/a.txt -> r/fr/a.txt".to_string()));
}

#[test]
fn mirror_plan_creates_dirs_without_plain_files() {
    let mut tree = build_tree(path(&["r", "src"]), &vec![dir("only", vec![file("t.txt")])]);
    assert!(find_file_and_apply(&mut tree, &path(&["r", "src", "only", "t.txt"]), true));
    let plan = copy_untranslatable_files(&path(&["r"]), "src", "de", &tree).unwrap();
    assert_eq!(describe(&plan), vec!["mkdir r/de/only"]);
}

#[test]
fn mirror_plan_refuses_stale_snapshot() {
    let tree = build_tree(path(&["elsewhere"]), &source_listing());
    let r = copy_untranslatable_files(&path(&["r"]), "src", "fr", &tree);
    assert_eq!(r.err(), Some(CopyFileDirError::StripPathError));
}

#[test]
fn mirror_plan_refuses_stale_translatable_file() {
    let mut tree = Directory::new(path(&["r", "src"]));
    let mut listing_tree = build_tree(path(&["other"]), &vec![file("x")]);
    listing_tree.files[0].translatable = true;
    tree.files.push(listing_tree.files.remove(0));
    let r = copy_untranslatable_files(&path(&["r"]), "src", "fr", &tree);
    assert_eq!(r.err(), Some(CopyFileDirError::StripPathError));
}

#[test]
fn config_flag_errors() {
    let mut cfg = ProjectConfig::new("p");
    assert_eq!(
        cfg.make_translatable_file(&path(&["x"])),
        Err(AddTranslatableFileError::NoSourceLang)
    );
    cfg.set_src_dir(build_tree(path(&["p", "src"]), &source_listing()), Language::new("en"));
    assert_eq!(
        cfg.make_translatable_file(&path(&["p", "src", "zzz"])),
        Err(AddTranslatableFileError::NoFile)
    );
    assert_eq!(cfg.make_translatable_file(&path(&["p", "src", "a.txt"])), Ok(()));
    let src = cfg.get_src_dir_as_ref().as_ref().unwrap();
    assert!(src.get_dir_as_ref().files[0].translatable);
    assert_eq!(cfg.make_untranslatable_file(&path(&["p", "src", "a.txt"])), Ok(()));
    let src = cfg.get_src_dir_as_ref().as_ref().unwrap();
    assert!(!src.get_dir_as_ref().files[0].translatable);
}

#[test]
fn language_suffix_and_equality() {
    let fr = Language::new("fr");
    assert_eq!(fr.get_dir_suffix(), "_fr");
    assert!(fr == Language::new("fr"));
    assert!(fr != Language::new("de"));
    assert!(fr.same_as(&fr.duplicate()));
}

#[test]
fn project_paths() {
    let project = project_with_source();
    assert_eq!(parts(&project.get_config_file_path()), vec!["home", "proj", CONFIG_FILE_NAME]);
    assert_eq!(CONFIG_FILE_NAME, "trans_conf.json");
    assert_eq!(parts(&project.source_dir_path("src")), vec!["home", "proj", "src"]);
    assert_eq!(parts(&project.lang_dir_path(&Language::new("fr"))), vec!["home", "proj", "proj_fr"]);
    assert_eq!(project.get_src_lang().unwrap().code, "en");
    assert_eq!(parts(&project.get_root_path()), vec!["home", "proj"]);
}

#[test]
fn set_source_dir_errors() {
    let mut project = Project::new(path(&["r"]), ProjectConfig::new("r"));
    assert_eq!(
        project.set_source_dir(DirProbe::Missing, Language::new("en")),
        Err(SetSourceDirError::DirectoryDoesNotExist)
    );
    assert_eq!(
        project.set_source_dir(DirProbe::NotDirectory, Language::new("en")),
        Err(SetSourceDirError::NotDirectory)
    );
    assert!(project.get_src_lang().is_none());
}

#[test]
fn add_lang_errors() {
    let mut bare = Project::new(path(&["r"]), ProjectConfig::new("r"));
    let fr = Language::new("fr");
    assert_eq!(bare.check_new_lang(&fr, true).err(), Some(AddLanguageError::LangDirExists));
    assert_eq!(bare.check_new_lang(&fr, false).err(), Some(AddLanguageError::NoSourceLang));
    assert_eq!(
        bare.add_lang(Language::new("fr"), Directory::new(path(&["r", "r_fr"]))),
        Err(AddLanguageError::NoSourceLang)
    );
    let mut project = project_with_source();
    assert_eq!(
        project.check_new_lang(&Language::new("en"), false).err(),
        Some(AddLanguageError::LangAlreadyInTheProj)
    );
    let target = project.check_new_lang(&fr, false).unwrap();
    assert_eq!(parts(&target), vec!["home", "proj", "proj_fr"]);
    assert_eq!(project.add_lang(Language::new("fr"), Directory::new(target)), Ok(()));
    assert_eq!(
        project.add_lang(Language::new("fr"), Directory::new(path(&["home", "proj", "x"]))),
        Err(AddLanguageError::LangAlreadyInTheProj)
    );
    assert_eq!(project.get_config_as_ref().get_lang_dirs_as_ref().len(), 1);
}

#[test]
fn sync_errors() {
    let bare = Project::new(path(&["r"]), ProjectConfig::new("r"));
    assert_eq!(bare.sync_files().err(), Some(SyncFilesError::NoSourceLang));
    let project = project_with_source();
    assert_eq!(project.sync_files().err(), Some(SyncFilesError::NoTransLangs));
    let mut stale = Project::new(path(&["r"]), ProjectConfig::new("r"));
    let tree = build_tree(path(&["elsewhere", "src"]), &source_listing());
    assert_eq!(stale.set_source_dir(DirProbe::Directory(tree), Language::new("en")), Ok(()));
    assert_eq!(stale.add_lang(Language::new("fr"), Directory::new(path(&["r", "r_fr"]))), Ok(()));
    assert_eq!(
        stale.sync_files().err(),
        Some(SyncFilesError::CopyError(CopyFileDirError::StripPathError))
    );
}

#[test]
fn scenario_sync_into_french() {
    let mut project = project_with_source();
    assert_eq!(
        project.make_translatable_file(&path(&["home", "proj", "src", "b.txt"])),
        Ok(())
    );
    let fr = Language::new("fr");
    let target = project.check_new_lang(&fr, false).unwrap();
    assert_eq!(project.add_lang(fr, Directory::new(target)), Ok(()));
    let plan = project.sync_files().unwrap();
    assert_eq!(
        describe(&plan),
        vec![
            "copy home/proj/src/a.txt -> home/proj/proj_fr/a.txt",
            "mkdir home/proj/proj_fr/img",
            "copy home/proj/src/img/logo.png -> home/proj/proj_fr/img/logo.png",
        ]
    );
    assert!(!describe(&plan).iter().any(|s| s.contains("b.txt")));
    let rebuilt = build_tree(
        path(&["home", "proj", "proj_fr"]),
        &vec![file("a.txt"), dir("img", vec![file("logo.png")])],
    );
    project.analyze_lang_dirs(vec![rebuilt]);
    let lang_dirs = project.get_config_as_ref().get_lang_dirs_as_ref();
    assert_eq!(lang_dirs[0].get_lang().code, "fr");
    assert_eq!(lang_dirs[0].get_dir_as_ref().files.len(), 1);
    assert!(!lang_dirs[0].get_dir_as_ref().files[0].translatable);
}

#[test]
fn sync_covers_every_target_in_order() {
    let mut project = project_with_source();
    for code in ["fr", "de"] {
        let lang = Language::new(code);
        let target = project.check_new_lang(&lang, false).unwrap();
        assert_eq!(project.add_lang(lang, Directory::new(target)), Ok(()));
    }
    let plan = describe(&project.sync_files().unwrap());
    assert_eq!(plan.len(), 8);
    assert_eq!(plan[0], "copy home/proj/src/a.txt -> home/proj/proj_fr/a.txt");
    assert_eq!(plan[4], "copy home/proj/src/a.txt -> home/proj/proj_de/a.txt");
    let again = describe(&project.sync_files().unwrap());
    assert_eq!(plan, again);
}

#[test]
fn setting_same_source_again_keeps_flags() {
    let mut project = project_with_source();
    assert_eq!(project.make_translatable_file(&path(&["home", "proj", "src", "b.txt"])), Ok(()));
    let fresh = build_tree(
        path(&["home", "proj", "src"]),
        &vec![file("b.txt"), file("c.txt"), dir("img", vec![file("logo.png")])],
    );
    assert_eq!(project.set_source_dir(DirProbe::Directory(fresh), Language::new("en")), Ok(()));
    let cfg = project.get_config_as_ref();
    let src = cfg.get_src_dir_as_ref().as_ref().unwrap().get_dir_as_ref();
    assert_eq!(src.files[0].name, "b.txt");
    assert!(src.files[0].translatable);
    assert_eq!(src.files[1].name, "c.txt");
    assert!(!src.files[1].translatable);
    assert!(!src.dirs[0].files[0].translatable);
}

#[test]
fn setting_other_source_resets_flags() {
    let mut project = project_with_source();
    assert_eq!(project.make_translatable_file(&path(&["home", "proj", "src", "a.txt"])), Ok(()));
    let other = build_tree(path(&["home", "proj", "src2"]), &vec![file("a.txt")]);
    assert_eq!(project.set_source_dir(DirProbe::Directory(other), Language::new("de")), Ok(()));
    let cfg = project.get_config_as_ref();
    let src = cfg.get_src_dir_as_ref().as_ref().unwrap();
    assert!(!src.get_dir_as_ref().files[0].translatable);
    assert_eq!(src.get_lang().code, "de");
}

#[test]
fn locator_changes_only_first_match() {
    let mut tree = build_tree(path(&["r"]), &vec![dir("a", vec![file("x")])]);
    let mut extra = build_tree(path(&["r"]), &vec![file("x")]);
    // a second record at the same path, in a later subtree
    let mut copy = tree.dirs[0].duplicate();
    copy.files.push(extra.files.remove(0));
    tree.dirs.push(copy);
    assert!(find_file_and_apply(&mut tree, &path(&["r", "a", "x"]), true));
    assert!(tree.dirs[0].files[0].translatable);
    assert!(!tree.dirs[1].files[0].translatable);
}

#[test]
fn config_copy_is_independent() {
    let mut project = project_with_source();
    let copy = project.get_config();
    assert_eq!(project.make_translatable_file(&path(&["home", "proj", "src", "a.txt"])), Ok(()));
    let copied_src = copy.get_src_dir_as_ref().as_ref().unwrap().get_dir_as_ref();
    assert!(!copied_src.files[0].translatable);
    assert_eq!(parts(&copied_src.files[0].path), vec!["home", "proj", "src", "a.txt"]);
    assert_eq!(copy.get_name(), "proj");
    let (name, lang_dirs, src) = copy.into_parts();
    assert_eq!(name, "proj");
    assert!(lang_dirs.is_empty());
    assert_eq!(src.unwrap().get_lang().code, "en");
}
