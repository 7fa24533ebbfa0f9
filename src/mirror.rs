use vstd::prelude::*;

use crate::fspath::{is_prefix_of, relative_to, FsPath};
use crate::locator::has_flagged;
use crate::snapshot::{has_dir, well_formed, Directory, File};

verus! {

/// What a mirror pass does to the filesystem, one step at a time.
pub ghost enum MirrorStep {
    /// Copy the file at `from` to `to`, replacing what is there.
    Copy { from: Seq<Seq<char>>, to: Seq<Seq<char>> },
    /// Create the directory at `path` unless it exists.
    MakeDir { path: Seq<Seq<char>> },
}

/// One filesystem action of a mirror pass.
pub enum MirrorAction {
    /// Copy the file at `from` to `to`, replacing what is there. A failure here does not
    /// stop the pass.
    CopyFile { from: FsPath, to: FsPath },
    /// Create the directory at `path` unless it exists. A failure here stops the pass.
    EnsureDir { path: FsPath },
}

impl View for MirrorAction {
    type V = MirrorStep;

    open spec fn view(&self) -> MirrorStep {
        match self {
            MirrorAction::CopyFile { from, to } => MirrorStep::Copy { from: from@, to: to@ },
            MirrorAction::EnsureDir { path } => MirrorStep::MakeDir { path: path@ },
        }
    }
}

/// The steps of a sequence of actions.
pub open spec fn steps_of(v: Seq<MirrorAction>) -> Seq<MirrorStep> {
    v.map_values(|a: MirrorAction| a@)
}

/// Why a mirror pass was refused.
#[derive(Debug, PartialEq, Eq)]
pub enum CopyFileDirError {
    /// An entry of the snapshot does not lie under the source directory: the snapshot is
    /// stale or was taken elsewhere.
    StripPathError,
}

/// The copies that mirror the first `k` files of `files` from below `from` to below `to`:
/// translatable files are passed over; every other file is copied to the same place
/// relative to `to`. `None` when one of these files, translatable or not, does not lie
/// under `from`.
pub open spec fn file_steps(from: Seq<Seq<char>>, to: Seq<Seq<char>>, files: Seq<File>, k: int) -> Option<Seq<MirrorStep>>
    decreases k,
{
    if k <= 0 {
        Some(Seq::empty())
    } else {
        match file_steps(from, to, files, k - 1) {
            None => None,
            Some(s) => {
                let f = files[k - 1];
                match relative_to(f.path@, from) {
                    None => None,
                    Some(rel) => if f.translatable {
                        Some(s)
                    } else {
                        Some(s.push(MirrorStep::Copy { from: f.path@, to: to + rel }))
                    },
                }
            },
        }
    }
}

/// The steps that mirror the tree `d` from below `from` to below `to`: the files of `d`
/// first, then for each subdirectory in turn, the creation of its counterpart followed by
/// the steps of its own tree. `None` when an entry met on the way does not lie under
/// `from`.
pub open spec fn tree_steps(from: Seq<Seq<char>>, to: Seq<Seq<char>>, d: Directory) -> Option<Seq<MirrorStep>>
    decreases d, d.dirs@.len() + 1,
{
    match file_steps(from, to, d.files@, d.files@.len() as int) {
        None => None,
        Some(fs) => match subdir_steps(from, to, d, d.dirs@.len() as int) {
            None => None,
            Some(ds) => Some(fs + ds),
        },
    }
}

/// The steps that mirror the first `k` subdirectories of `d`, as `tree_steps` describes.
pub open spec fn subdir_steps(from: Seq<Seq<char>>, to: Seq<Seq<char>>, d: Directory, k: int) -> Option<Seq<MirrorStep>>
    decreases d, k,
{
    if k <= 0 || k > d.dirs@.len() {
        Some(Seq::empty())
    } else {
        match subdir_steps(from, to, d, k - 1) {
            None => None,
            Some(s) => {
                let sub = d.dirs@[k - 1];
                match relative_to(sub.path@, from) {
                    None => None,
                    Some(rel) => match tree_steps(from, to, sub) {
                        None => None,
                        Some(t) => Some(s.push(MirrorStep::MakeDir { path: to + rel }) + t),
                    },
                }
            },
        }
    }
}

proof fn lemma_steps_push(v: Seq<MirrorAction>, a: MirrorAction)
    ensures
        steps_of(v.push(a)) == steps_of(v).push(a@),
{
    assert(steps_of(v.push(a)) =~= steps_of(v).push(a@));
}

proof fn lemma_file_steps_fail_stays(
    from: Seq<Seq<char>>,
    to: Seq<Seq<char>>,
    files: Seq<File>,
    k: int,
    k2: int,
)
    requires
        k <= k2,
        file_steps(from, to, files, k) is None,
    ensures
        file_steps(from, to, files, k2) is None,
    decreases k2 - k,
{
    if k < k2 {
        lemma_file_steps_fail_stays(from, to, files, k, k2 - 1);
    }
}

proof fn lemma_subdir_steps_fail_stays(
    from: Seq<Seq<char>>,
    to: Seq<Seq<char>>,
    d: Directory,
    k: int,
    k2: int,
)
    requires
        0 <= k <= k2 <= d.dirs@.len(),
        subdir_steps(from, to, d, k) is None,
    ensures
        subdir_steps(from, to, d, k2) is None,
    decreases k2 - k,
{
    if k < k2 {
        lemma_subdir_steps_fail_stays(from, to, d, k, k2 - 1);
    }
}

/// Appends to `out` the actions that mirror the tree `dir` from below `from_dir` to
/// below `to_dir`, in the order `tree_steps` gives; fails when an entry does not lie
/// under `from_dir`.
fn copy_untranslatable_files_rec(
    from_dir: &FsPath,
    to_dir: &FsPath,
    dir: &Directory,
    out: &mut Vec<MirrorAction>,
) -> (r: Result<(), CopyFileDirError>)
    ensures
        match tree_steps(from_dir@, to_dir@, *dir) {
            Some(s) => r is Ok && steps_of(final(out)@) == steps_of(old(out)@) + s,
            None => r is Err,
        },
    decreases *dir,
{
    let ghost start = steps_of(out@);
    let ghost from = from_dir@;
    let ghost to = to_dir@;
    let mut i: usize = 0;
    while i < dir.files.len()
        invariant
            i <= dir.files@.len(),
            from == from_dir@,
            to == to_dir@,
            file_steps(from, to, dir.files@, i as int) is Some,
            steps_of(out@) == start + file_steps(from, to, dir.files@, i as int)->Some_0,
        decreases dir.files@.len() - i,
    {
        let file = &dir.files[i];
        match file.path.strip_prefix(from_dir) {
            None => {
                proof {
                    lemma_file_steps_fail_stays(
                        from,
                        to,
                        dir.files@,
                        i + 1,
                        dir.files@.len() as int,
                    );
                }
                return Err(CopyFileDirError::StripPathError);
            },
            Some(rel) => {
                if !file.translatable {
                    let action = MirrorAction::CopyFile {
                        from: file.path.duplicate(),
                        to: to_dir.join(&rel),
                    };
                    proof {
                        lemma_steps_push(out@, action);
                    }
                    out.push(action);
                }
            },
        }
        i = i + 1;
    }
    let ghost fs = file_steps(from, to, dir.files@, dir.files@.len() as int)->Some_0;
    let mut j: usize = 0;
    while j < dir.dirs.len()
        invariant
            j <= dir.dirs@.len(),
            from == from_dir@,
            to == to_dir@,
            file_steps(from, to, dir.files@, dir.files@.len() as int) == Some(fs),
            subdir_steps(from, to, *dir, j as int) is Some,
            steps_of(out@) == start + fs + subdir_steps(from, to, *dir, j as int)->Some_0,
        decreases dir.dirs@.len() - j,
    {
        let sub = &dir.dirs[j];
        match sub.path.strip_prefix(from_dir) {
            None => {
                proof {
                    lemma_subdir_steps_fail_stays(from, to, *dir, j + 1, dir.dirs@.len() as int);
                }
                return Err(CopyFileDirError::StripPathError);
            },
            Some(rel) => {
                let action = MirrorAction::EnsureDir { path: to_dir.join(&rel) };
                proof {
                    lemma_steps_push(out@, action);
                }
                out.push(action);
                let ghost mid = steps_of(out@);
                match copy_untranslatable_files_rec(from_dir, to_dir, sub, out) {
                    Err(e) => {
                        proof {
                            lemma_subdir_steps_fail_stays(
                                from,
                                to,
                                *dir,
                                j + 1,
                                dir.dirs@.len() as int,
                            );
                        }
                        return Err(e);
                    },
                    Ok(()) => {
                        assert(steps_of(out@) =~= start + fs + subdir_steps(
                            from,
                            to,
                            *dir,
                            j + 1,
                        )->Some_0);
                    },
                }
            },
        }
        j = j + 1;
    }
    assert(steps_of(out@) =~= start + tree_steps(from, to, *dir)->Some_0);
    Ok(())
}

/// The actions that mirror the snapshot `from_structure` of the directory `from_name`
/// of `root_path` into the directory `to_name` of `root_path`: every untranslatable file
/// is copied to the same place relative to the target, every subdirectory is created
/// there first, and translatable files are left alone. Fails, with nothing to do, when
/// an entry of the snapshot does not lie under the source directory.
pub fn copy_untranslatable_files(
    root_path: &FsPath,
    from_name: &str,
    to_name: &str,
    from_structure: &Directory,
) -> (r: Result<Vec<MirrorAction>, CopyFileDirError>)
    ensures
        match tree_steps(root_path@.push(from_name@), root_path@.push(to_name@), *from_structure) {
            Some(s) => r is Ok && steps_of(r->Ok_0@) == s,
            None => r is Err,
        },
{
    let from_dir = root_path.join_name(from_name);
    let to_dir = root_path.join_name(to_name);
    let mut out: Vec<MirrorAction> = Vec::new();
    assert(steps_of(out@) =~= Seq::<MirrorStep>::empty());
    match copy_untranslatable_files_rec(&from_dir, &to_dir, from_structure, &mut out) {
        Ok(()) => {
            assert(steps_of(out@) =~= tree_steps(from_dir@, to_dir@, *from_structure)->Some_0);
            Ok(out)
        },
        Err(e) => Err(e),
    }
}

/// Where the entry at `p`, below `from`, has its counterpart below `to`.
pub open spec fn mirrored(p: Seq<Seq<char>>, from: Seq<Seq<char>>, to: Seq<Seq<char>>) -> Seq<Seq<char>> {
    to + p.subrange(from.len() as int, p.len() as int)
}

/// The step that copies the file at `q`, below `from`, to its counterpart below `to`.
pub open spec fn copy_step(q: Seq<Seq<char>>, from: Seq<Seq<char>>, to: Seq<Seq<char>>) -> MirrorStep {
    MirrorStep::Copy { from: q, to: mirrored(q, from, to) }
}

pub(crate) proof fn lemma_contains_concat(a: Seq<MirrorStep>, b: Seq<MirrorStep>, x: MirrorStep)
    ensures
        a.contains(x) ==> (a + b).contains(x),
        b.contains(x) ==> (a + b).contains(x),
{
    if a.contains(x) {
        let i = choose|i: int| 0 <= i < a.len() && a[i] == x;
        assert((a + b)[i] == x);
    }
    if b.contains(x) {
        let i = choose|i: int| 0 <= i < b.len() && b[i] == x;
        assert((a + b)[a.len() + i] == x);
    }
}

proof fn lemma_file_steps_facts(from: Seq<Seq<char>>, to: Seq<Seq<char>>, files: Seq<File>, k: int)
    requires
        0 <= k <= files.len(),
        file_steps(from, to, files, k) is Some,
    ensures
        forall|i: int|
            0 <= i < k && !(#[trigger] files[i]).translatable ==> is_prefix_of(from, files[i].path@)
                && file_steps(from, to, files, k)->Some_0.contains(
                copy_step(files[i].path@, from, to),
            ),
        forall|m: int|
            0 <= m < file_steps(from, to, files, k)->Some_0.len() ==> exists|i: int|
                0 <= i < k && !(#[trigger] files[i]).translatable
                    && #[trigger] file_steps(from, to, files, k)->Some_0[m] == copy_step(files[i].path@, from, to),
    decreases k,
{
    if k > 0 {
        lemma_file_steps_facts(from, to, files, k - 1);
        let prev = file_steps(from, to, files, k - 1)->Some_0;
        let s = file_steps(from, to, files, k)->Some_0;
        let f = files[k - 1];
        if !f.translatable {
            assert(s == prev.push(
                copy_step(f.path@, from, to),
            ));
            assert(s[prev.len() as int] == copy_step(f.path@, from, to));
        }
        assert forall|i: int|
            0 <= i < k && !(#[trigger] files[i]).translatable implies is_prefix_of(from, files[i].path@)
                && s.contains(
                copy_step(files[i].path@, from, to),
            ) by {
            if i < k - 1 {
                let x = copy_step(files[i].path@, from, to);
                let idx = choose|idx: int| 0 <= idx < prev.len() && prev[idx] == x;
                assert(s[idx] == x);
            }
        }
        assert forall|m: int| #![trigger s[m]] 0 <= m < s.len() implies exists|i: int|
            0 <= i < k && !(#[trigger] files[i]).translatable && s[m] == copy_step(files[i].path@, from, to) by {
            if m < prev.len() {
                assert(s[m] == prev[m]);
            } else {
                assert(!files[k - 1].translatable);
            }
        }
    }
}

/// The step that creates the counterpart below `to` of the directory at `p`, below `from`.
pub open spec fn dir_step(p: Seq<Seq<char>>, from: Seq<Seq<char>>, to: Seq<Seq<char>>) -> MirrorStep {
    MirrorStep::MakeDir { path: mirrored(p, from, to) }
}

/// Every untranslatable file of `d` lies below `from`, and `s` copies it to its counterpart.
pub open spec fn copies_every_plain_file(d: Directory, from: Seq<Seq<char>>, to: Seq<Seq<char>>, s: Seq<MirrorStep>) -> bool {
    forall|q: Seq<Seq<char>>|
        #[trigger] has_flagged(d, q, false) ==> is_prefix_of(from, q) && s.contains(
            copy_step(q, from, to),
        )
}

/// Every copy of `s` takes an untranslatable file of `d` to its counterpart.
pub open spec fn copies_only_plain_files(d: Directory, from: Seq<Seq<char>>, to: Seq<Seq<char>>, s: Seq<MirrorStep>) -> bool {
    forall|m: int|
        0 <= m < s.len() && (#[trigger] s[m]) is Copy ==> has_flagged(d, s[m]->Copy_from, false)
            && s[m] == copy_step(s[m]->Copy_from, from, to)
}

/// No copy of `s` reads, or writes the counterpart of, a path below `from` at which `d`
/// holds no untranslatable file.
pub open spec fn leaves_alone(d: Directory, from: Seq<Seq<char>>, to: Seq<Seq<char>>, s: Seq<MirrorStep>) -> bool {
    forall|q: Seq<Seq<char>>, m: int|
        is_prefix_of(from, q) && !has_flagged(d, q, false) && 0 <= m < s.len() && (#[trigger] s[m]) is Copy
            ==> s[m]->Copy_from != q && s[m]->Copy_to != #[trigger] mirrored(q, from, to)
}

/// Every directory strictly below the top of `d` lies below `from`, and `s` creates its
/// counterpart.
pub open spec fn makes_every_dir(d: Directory, from: Seq<Seq<char>>, to: Seq<Seq<char>>, s: Seq<MirrorStep>) -> bool {
    forall|p: Seq<Seq<char>>|
        #[trigger] has_dir(d, p) ==> is_prefix_of(from, p) && s.contains(dir_step(p, from, to))
}

proof fn lemma_tree_steps_facts(from: Seq<Seq<char>>, to: Seq<Seq<char>>, d: Directory)
    requires
        tree_steps(from, to, d) is Some,
    ensures
        copies_every_plain_file(d, from, to, tree_steps(from, to, d)->Some_0),
        copies_only_plain_files(d, from, to, tree_steps(from, to, d)->Some_0),
        makes_every_dir(d, from, to, tree_steps(from, to, d)->Some_0),
    decreases d, d.dirs@.len() + 1,
{
    let n = d.dirs@.len() as int;
    let fs = file_steps(from, to, d.files@, d.files@.len() as int)->Some_0;
    let ds = subdir_steps(from, to, d, n)->Some_0;
    let s = tree_steps(from, to, d)->Some_0;
    assert(s == fs + ds);
    lemma_file_steps_facts(from, to, d.files@, d.files@.len() as int);
    lemma_subdir_steps_facts(from, to, d, n);
    assert forall|q: Seq<Seq<char>>| #[trigger] has_flagged(d, q, false) implies is_prefix_of(from, q)
        && s.contains(copy_step(q, from, to)) by {
        lemma_contains_concat(fs, ds, copy_step(q, from, to));
        if exists|i: int|
            0 <= i < d.files@.len() && (#[trigger] d.files@[i]).path@ == q
                && d.files@[i].translatable == false {
            let i = choose|i: int|
                0 <= i < d.files@.len() && (#[trigger] d.files@[i]).path@ == q
                    && d.files@[i].translatable == false;
            assert(!d.files@[i].translatable);
        } else {
            let j = choose|j: int| 0 <= j < d.dirs@.len() && has_flagged(#[trigger] d.dirs@[j], q, false);
            assert(has_flagged(d.dirs@[j], q, false));
        }
    }
    assert forall|m: int| 0 <= m < s.len() && (#[trigger] s[m]) is Copy implies has_flagged(
        d,
        s[m]->Copy_from,
        false,
    ) && s[m] == copy_step(s[m]->Copy_from, from, to) by {
        if m < fs.len() {
            assert(s[m] == fs[m]);
            let i = choose|i: int|
                0 <= i < d.files@.len() && !(#[trigger] d.files@[i]).translatable && fs[m]
                    == copy_step(d.files@[i].path@, from, to);
            assert(d.files@[i].path@ == s[m]->Copy_from);
        } else {
            assert(s[m] == ds[m - fs.len()]);
            assert(ds[m - fs.len()] is Copy);
        }
    }
    assert forall|p: Seq<Seq<char>>| #[trigger] has_dir(d, p) implies is_prefix_of(from, p) && s.contains(
        dir_step(p, from, to),
    ) by {
        lemma_contains_concat(fs, ds, dir_step(p, from, to));
        let j = choose|j: int|
            0 <= j < d.dirs@.len() && ((#[trigger] d.dirs@[j]).path@ == p || has_dir(d.dirs@[j], p));
        if d.dirs@[j].path@ != p {
            assert(has_dir(d.dirs@[j], p));
        }
    }
}

proof fn lemma_subdir_steps_facts(from: Seq<Seq<char>>, to: Seq<Seq<char>>, d: Directory, k: int)
    requires
        0 <= k <= d.dirs@.len(),
        subdir_steps(from, to, d, k) is Some,
    ensures
        forall|q: Seq<Seq<char>>, j: int|
            0 <= j < k && #[trigger] has_flagged(d.dirs@[j], q, false) ==> is_prefix_of(from, q)
                && subdir_steps(from, to, d, k)->Some_0.contains(copy_step(q, from, to)),
        forall|m: int|
            0 <= m < subdir_steps(from, to, d, k)->Some_0.len() && (#[trigger] subdir_steps(
                from,
                to,
                d,
                k,
            )->Some_0[m]) is Copy ==> exists|j: int|
                0 <= j < k && has_flagged(
                    #[trigger] d.dirs@[j],
                    subdir_steps(from, to, d, k)->Some_0[m]->Copy_from,
                    false,
                ) && subdir_steps(from, to, d, k)->Some_0[m] == copy_step(
                    subdir_steps(from, to, d, k)->Some_0[m]->Copy_from,
                    from,
                    to,
                ),
        forall|j: int|
            0 <= j < k ==> is_prefix_of(from, (#[trigger] d.dirs@[j]).path@) && subdir_steps(
                from,
                to,
                d,
                k,
            )->Some_0.contains(dir_step(d.dirs@[j].path@, from, to)),
        forall|p: Seq<Seq<char>>, j: int|
            0 <= j < k && #[trigger] has_dir(d.dirs@[j], p) ==> is_prefix_of(from, p) && subdir_steps(
                from,
                to,
                d,
                k,
            )->Some_0.contains(dir_step(p, from, to)),
    decreases d, k,
{
    if k > 0 {
        lemma_subdir_steps_facts(from, to, d, k - 1);
        let prev = subdir_steps(from, to, d, k - 1)->Some_0;
        let sub = d.dirs@[k - 1];
        lemma_tree_steps_facts(from, to, sub);
        let t = tree_steps(from, to, sub)->Some_0;
        let head = prev.push(dir_step(sub.path@, from, to));
        let s = subdir_steps(from, to, d, k)->Some_0;
        assert(s == head + t);
        assert(head[prev.len() as int] == dir_step(sub.path@, from, to));
        assert forall|x: MirrorStep| prev.contains(x) implies #[trigger] s.contains(x) by {
            let i = choose|i: int| 0 <= i < prev.len() && prev[i] == x;
            assert(head[i] == x);
            lemma_contains_concat(head, t, x);
        }
        assert forall|q: Seq<Seq<char>>, j: int|
            0 <= j < k && #[trigger] has_flagged(d.dirs@[j], q, false) implies is_prefix_of(from, q)
                && s.contains(copy_step(q, from, to)) by {
            if j == k - 1 {
                lemma_contains_concat(head, t, copy_step(q, from, to));
            } else {
                assert(prev.contains(copy_step(q, from, to)));
            }
        }
        assert forall|m: int| 0 <= m < s.len() && (#[trigger] s[m]) is Copy implies exists|j: int|
            0 <= j < k && has_flagged(#[trigger] d.dirs@[j], s[m]->Copy_from, false) && s[m]
                == copy_step(s[m]->Copy_from, from, to) by {
            if m < prev.len() {
                assert(s[m] == prev[m]);
            } else if m == prev.len() {
                assert(s[m] == dir_step(sub.path@, from, to));
            } else {
                assert(s[m] == t[m - head.len()]);
                assert(t[m - head.len()] is Copy);
                assert(has_flagged(d.dirs@[k - 1], s[m]->Copy_from, false));
            }
        }
        assert forall|j: int| 0 <= j < k implies is_prefix_of(from, (#[trigger] d.dirs@[j]).path@)
            && s.contains(dir_step(d.dirs@[j].path@, from, to)) by {
            if j == k - 1 {
                assert(s[prev.len() as int] == dir_step(sub.path@, from, to));
            } else {
                assert(prev.contains(dir_step(d.dirs@[j].path@, from, to)));
            }
        }
        assert forall|p: Seq<Seq<char>>, j: int|
            0 <= j < k && #[trigger] has_dir(d.dirs@[j], p) implies is_prefix_of(from, p) && s.contains(
                dir_step(p, from, to),
            ) by {
            if j == k - 1 {
                lemma_contains_concat(head, t, dir_step(p, from, to));
            } else {
                assert(prev.contains(dir_step(p, from, to)));
            }
        }
    }
}

proof fn lemma_file_steps_fit(from: Seq<Seq<char>>, to: Seq<Seq<char>>, d: Directory, k: int)
    requires
        0 <= k <= d.files@.len(),
        well_formed(d),
        is_prefix_of(from, d.path@),
    ensures
        file_steps(from, to, d.files@, k) is Some,
    decreases k,
{
    if k > 0 {
        lemma_file_steps_fit(from, to, d, k - 1);
        let f = d.files@[k - 1];
        assert(f.path@ == d.path@.push(f.name@));
        assert(f.path@.subrange(0, from.len() as int) =~= d.path@.subrange(0, from.len() as int));
    }
}

proof fn lemma_tree_steps_fit(from: Seq<Seq<char>>, to: Seq<Seq<char>>, d: Directory)
    requires
        well_formed(d),
        is_prefix_of(from, d.path@),
    ensures
        tree_steps(from, to, d) is Some,
    decreases d, d.dirs@.len() + 1,
{
    lemma_file_steps_fit(from, to, d, d.files@.len() as int);
    lemma_subdir_steps_fit(from, to, d, d.dirs@.len() as int);
}

proof fn lemma_subdir_steps_fit(from: Seq<Seq<char>>, to: Seq<Seq<char>>, d: Directory, k: int)
    requires
        0 <= k <= d.dirs@.len(),
        well_formed(d),
        is_prefix_of(from, d.path@),
    ensures
        subdir_steps(from, to, d, k) is Some,
    decreases d, k,
{
    if k > 0 {
        lemma_subdir_steps_fit(from, to, d, k - 1);
        let sub = d.dirs@[k - 1];
        assert(sub.path@ == d.path@.push(sub.name@) && well_formed(sub));
        assert(sub.path@.subrange(0, from.len() as int) =~= d.path@.subrange(0, from.len() as int));
        lemma_tree_steps_fit(from, to, sub);
    }
}

/// A mirror pass over a well-formed snapshot of the source directory `from` goes
/// through, copies every untranslatable file to the place below `to` that has the same
/// path relative to `to` as the file relative to `from`, and copies nothing else: every
/// file it reads is untranslatable, so a path that holds only translatable files is
/// neither read nor has its counterpart written.
pub proof fn law_flag_precision(from: Seq<Seq<char>>, to: Seq<Seq<char>>, d: Directory)
    requires
        well_formed(d),
        d.path@ == from,
    ensures
        tree_steps(from, to, d) is Some,
        copies_every_plain_file(d, from, to, tree_steps(from, to, d)->Some_0),
        copies_only_plain_files(d, from, to, tree_steps(from, to, d)->Some_0),
        leaves_alone(d, from, to, tree_steps(from, to, d)->Some_0),
{
    assert(from.subrange(0, from.len() as int) =~= from);
    lemma_tree_steps_fit(from, to, d);
    lemma_tree_steps_facts(from, to, d);
    let s = tree_steps(from, to, d)->Some_0;
    assert forall|q: Seq<Seq<char>>, m: int|
        is_prefix_of(from, q) && !has_flagged(d, q, false) && 0 <= m < s.len() && (#[trigger] s[m]) is Copy
            implies s[m]->Copy_from != q && s[m]->Copy_to != #[trigger] mirrored(q, from, to) by {
        let qm = s[m]->Copy_from;
        assert(has_flagged(d, qm, false));
        assert(is_prefix_of(from, qm));
        if s[m]->Copy_to == mirrored(q, from, to) {
            let t = mirrored(q, from, to);
            let r = q.subrange(from.len() as int, q.len() as int);
            let rm = qm.subrange(from.len() as int, qm.len() as int);
            assert(r =~= t.subrange(to.len() as int, t.len() as int));
            assert(rm =~= t.subrange(to.len() as int, t.len() as int));
            assert(q =~= q.subrange(0, from.len() as int) + r);
            assert(qm =~= qm.subrange(0, from.len() as int) + rm);
        }
    }
}

/// A mirror pass over a well-formed snapshot of the source directory `from` creates,
/// below `to`, the counterpart of every subdirectory of the snapshot, whether or not it
/// holds untranslatable files.
pub proof fn law_structural_mirroring(from: Seq<Seq<char>>, to: Seq<Seq<char>>, d: Directory)
    requires
        well_formed(d),
        d.path@ == from,
    ensures
        tree_steps(from, to, d) is Some,
        makes_every_dir(d, from, to, tree_steps(from, to, d)->Some_0),
{
    assert(from.subrange(0, from.len() as int) =~= from);
    lemma_tree_steps_fit(from, to, d);
    lemma_tree_steps_facts(from, to, d);
}

/// What a mirror pass can see of the filesystem: the contents of files and the set of
/// directories, by path.
pub ghost struct FsState {
    pub files: Map<Seq<Seq<char>>, Seq<u8>>,
    pub dirs: Set<Seq<Seq<char>>>,
}

/// The filesystem after one step. A copy from a missing file does nothing.
pub open spec fn apply_step(fs: FsState, step: MirrorStep) -> FsState {
    match step {
        MirrorStep::Copy { from, to } => if fs.files.contains_key(from) {
            FsState { files: fs.files.insert(to, fs.files[from]), dirs: fs.dirs }
        } else {
            fs
        },
        MirrorStep::MakeDir { path } => FsState { files: fs.files, dirs: fs.dirs.insert(path) },
    }
}

/// The filesystem after the steps of `steps`, in order.
pub open spec fn apply_steps(fs: FsState, steps: Seq<MirrorStep>) -> FsState
    decreases steps.len(),
{
    if steps.len() == 0 {
        fs
    } else {
        apply_step(apply_steps(fs, steps.drop_last()), steps.last())
    }
}

/// No copy of `steps` writes a path that a copy reads, and copies that write one path
/// read one path.
pub open spec fn copies_settle(steps: Seq<MirrorStep>) -> bool {
    forall|i: int, j: int|
        0 <= i < steps.len() && 0 <= j < steps.len() && (#[trigger] steps[i]) is Copy && (
        #[trigger] steps[j]) is Copy ==> steps[i]->Copy_to != steps[j]->Copy_from && (
        steps[i]->Copy_to == steps[j]->Copy_to ==> steps[i]->Copy_from == steps[j]->Copy_from)
}

proof fn lemma_sources_kept(fs: FsState, steps: Seq<MirrorStep>, q: Seq<Seq<char>>)
    requires
        forall|i: int| 0 <= i < steps.len() && (#[trigger] steps[i]) is Copy ==> steps[i]->Copy_to != q,
    ensures
        apply_steps(fs, steps).files.contains_key(q) == fs.files.contains_key(q),
        fs.files.contains_key(q) ==> apply_steps(fs, steps).files[q] == fs.files[q],
    decreases steps.len(),
{
    if steps.len() > 0 {
        let init = steps.drop_last();
        assert forall|i: int| 0 <= i < init.len() && (#[trigger] init[i]) is Copy implies init[i]->Copy_to
            != q by {
            assert(init[i] == steps[i]);
        }
        lemma_sources_kept(fs, init, q);
        assert(steps[steps.len() - 1] == steps.last());
    }
}

proof fn lemma_effects(fs: FsState, steps: Seq<MirrorStep>)
    requires
        copies_settle(steps),
    ensures
        forall|i: int|
            0 <= i < steps.len() && (#[trigger] steps[i]) is MakeDir ==> apply_steps(
                fs,
                steps,
            ).dirs.contains(steps[i]->MakeDir_path),
        forall|i: int|
            0 <= i < steps.len() && (#[trigger] steps[i]) is Copy && fs.files.contains_key(
                steps[i]->Copy_from,
            ) ==> apply_steps(fs, steps).files.contains_key(steps[i]->Copy_to) && apply_steps(
                fs,
                steps,
            ).files[steps[i]->Copy_to] == fs.files[steps[i]->Copy_from],
    decreases steps.len(),
{
    if steps.len() > 0 {
        let init = steps.drop_last();
        let n = steps.len() - 1;
        assert(steps[n] == steps.last());
        assert forall|i: int, j: int|
            0 <= i < init.len() && 0 <= j < init.len() && (#[trigger] init[i]) is Copy && (
            #[trigger] init[j]) is Copy implies init[i]->Copy_to != init[j]->Copy_from && (
            init[i]->Copy_to == init[j]->Copy_to ==> init[i]->Copy_from == init[j]->Copy_from) by {
            assert(init[i] == steps[i] && init[j] == steps[j]);
        }
        lemma_effects(fs, init);
        let mid = apply_steps(fs, init);
        if steps[n] is Copy {
            let q = steps[n]->Copy_from;
            assert forall|i: int| 0 <= i < init.len() && (#[trigger] init[i]) is Copy implies init[i]->Copy_to
                != q by {
                assert(init[i] == steps[i]);
            }
            lemma_sources_kept(fs, init, q);
        }
        assert forall|i: int|
            0 <= i < steps.len() && (#[trigger] steps[i]) is MakeDir implies apply_steps(
                fs,
                steps,
            ).dirs.contains(steps[i]->MakeDir_path) by {
            if i < n {
                assert(init[i] == steps[i]);
            }
        }
        assert forall|i: int|
            0 <= i < steps.len() && (#[trigger] steps[i]) is Copy && fs.files.contains_key(
                steps[i]->Copy_from,
            ) implies apply_steps(fs, steps).files.contains_key(steps[i]->Copy_to) && apply_steps(
            fs,
            steps,
        ).files[steps[i]->Copy_to] == fs.files[steps[i]->Copy_from] by {
            if i < n {
                assert(init[i] == steps[i]);
            }
        }
    }
}

proof fn lemma_settled_prefix(fs: FsState, steps: Seq<MirrorStep>, k: int)
    requires
        copies_settle(steps),
        0 <= k <= steps.len(),
    ensures
        apply_steps(apply_steps(fs, steps), steps.subrange(0, k)) == apply_steps(fs, steps),
    decreases k,
{
    let done = apply_steps(fs, steps);
    if k > 0 {
        lemma_settled_prefix(fs, steps, k - 1);
        let pre = steps.subrange(0, k);
        assert(pre.drop_last() =~= steps.subrange(0, k - 1));
        assert(pre.last() == steps[k - 1]);
        lemma_effects(fs, steps);
        let step = steps[k - 1];
        match step {
            MirrorStep::Copy { from, to } => {
                assert forall|i: int| 0 <= i < steps.len() && (#[trigger] steps[i]) is Copy implies steps[i]->Copy_to
                    != from by {}
                lemma_sources_kept(fs, steps, from);
                if fs.files.contains_key(from) {
                    assert(done.files.insert(to, done.files[from]) =~= done.files);
                }
            },
            MirrorStep::MakeDir { path } => {
                assert(done.dirs.insert(path) =~= done.dirs);
            },
        }
    }
}

/// Running a mirror pass a second time, with nothing changed in between, leaves the
/// filesystem as the first pass left it, when no copy of the pass writes a path that a
/// copy reads and copies that write one path read one path.
pub proof fn law_mirror_idempotent(fs: FsState, steps: Seq<MirrorStep>)
    requires
        copies_settle(steps),
    ensures
        apply_steps(apply_steps(fs, steps), steps) == apply_steps(fs, steps),
{
    lemma_settled_prefix(fs, steps, steps.len() as int);
    assert(steps.subrange(0, steps.len() as int) =~= steps);
}

/// A mirror pass over a well-formed snapshot of the source directory `from`, into a
/// target `to` that neither holds nor lies within `from`, yields the same filesystem
/// when run a second time with nothing changed in between.
pub proof fn law_mirror_pass_idempotent(from: Seq<Seq<char>>, to: Seq<Seq<char>>, d: Directory, fs: FsState)
    requires
        well_formed(d),
        d.path@ == from,
        !is_prefix_of(from, to),
        !is_prefix_of(to, from),
    ensures
        tree_steps(from, to, d) is Some,
        apply_steps(apply_steps(fs, tree_steps(from, to, d)->Some_0), tree_steps(from, to, d)->Some_0)
            == apply_steps(fs, tree_steps(from, to, d)->Some_0),
{
    law_flag_precision(from, to, d);
    let s = tree_steps(from, to, d)->Some_0;
    assert forall|i: int, j: int|
        0 <= i < s.len() && 0 <= j < s.len() && (#[trigger] s[i]) is Copy && (#[trigger] s[j]) is Copy
            implies s[i]->Copy_to != s[j]->Copy_from && (s[i]->Copy_to == s[j]->Copy_to
        ==> s[i]->Copy_from == s[j]->Copy_from) by {
        let qi = s[i]->Copy_from;
        let qj = s[j]->Copy_from;
        assert(has_flagged(d, qi, false) && has_flagged(d, qj, false));
        assert(is_prefix_of(from, qi) && is_prefix_of(from, qj));
        let ti = s[i]->Copy_to;
        assert(ti == to + qi.subrange(from.len() as int, qi.len() as int));
        assert(ti.subrange(0, to.len() as int) =~= to);
        if ti == qj {
            assert(qj.subrange(0, from.len() as int) == from);
            if from.len() <= to.len() {
                assert(to.subrange(0, from.len() as int) =~= ti.subrange(0, from.len() as int));
                assert(is_prefix_of(from, to));
            } else {
                assert(from.subrange(0, to.len() as int) =~= qj.subrange(0, to.len() as int));
                assert(is_prefix_of(to, from));
            }
        }
        if ti == s[j]->Copy_to {
            let ri = qi.subrange(from.len() as int, qi.len() as int);
            let rj = qj.subrange(from.len() as int, qj.len() as int);
            assert(ri =~= ti.subrange(to.len() as int, ti.len() as int));
            assert(rj =~= ti.subrange(to.len() as int, ti.len() as int));
            assert(qi =~= qi.subrange(0, from.len() as int) + ri);
            assert(qj =~= qj.subrange(0, from.len() as int) + rj);
        }
    }
    law_mirror_idempotent(fs, s);
}

} // verus!
