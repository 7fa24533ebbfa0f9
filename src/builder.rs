use vstd::prelude::*;

use crate::fspath::FsPath;
use crate::fspath::is_prefix_of;
use crate::locator::has_flagged;
use crate::snapshot::{has_dir, has_file, last_name, same_tree, well_formed, Directory, File};

verus! {

/// One entry of a directory listing, as the filesystem reported it. Symbolic links are
/// told apart from what they point to; a directory carries its own listing.
pub enum ScanEntry {
    File(String),
    Dir(String, Vec<ScanEntry>),
    Symlink(String),
    Other(String),
}

/// How many of the first `k` entries are plain files.
pub open spec fn files_before(entries: Seq<ScanEntry>, k: int) -> nat
    decreases k,
{
    if k <= 0 {
        0
    } else {
        files_before(entries, k - 1) + if entries[k - 1] is File {
            1nat
        } else {
            0nat
        }
    }
}

/// How many of the first `k` entries are directories.
pub open spec fn dirs_before(entries: Seq<ScanEntry>, k: int) -> nat
    decreases k,
{
    if k <= 0 {
        0
    } else {
        dirs_before(entries, k - 1) + if entries[k - 1] is Dir {
            1nat
        } else {
            0nat
        }
    }
}

proof fn lemma_snapshot_from_records(d: Directory, root: Seq<Seq<char>>, entries: Seq<ScanEntry>)
    requires
        d.path@ == root,
        d.name@ == last_name(root),
        d.files@.len() == files_before(entries, entries.len() as int),
        d.dirs@.len() == dirs_before(entries, entries.len() as int),
        forall|k: int| 0 <= k < entries.len() ==> #[trigger] entry_recorded(d, root, entries, k),
    ensures
        is_snapshot_of(d, root, entries),
{
    reveal_with_fuel(is_snapshot_of, 2);
    assert forall|k: int| 0 <= k < entries.len() implies match #[trigger] entries[k] {
        ScanEntry::File(n) => {
            let f = d.files@[files_before(entries, k) as int];
            &&& f.name@ == n@
            &&& f.path@ == root.push(n@)
            &&& !f.translatable
        },
        ScanEntry::Dir(n, children) => is_snapshot_of(
            d.dirs@[dirs_before(entries, k) as int],
            root.push(n@),
            children@,
        ),
        _ => true,
    } by {
        assert(entry_recorded(d, root, entries, k));
    }
}

proof fn lemma_counts_grow(entries: Seq<ScanEntry>, k2: int, k: int)
    requires
        0 <= k2 < k <= entries.len(),
    ensures
        entries[k2] is File ==> files_before(entries, k2) < files_before(entries, k),
        entries[k2] is Dir ==> dirs_before(entries, k2) < dirs_before(entries, k),
    decreases k - k2,
{
    if k2 + 1 < k {
        lemma_counts_grow(entries, k2, k - 1);
    }
}

/// Whether `d` is the snapshot of the directory at `root` whose listing is `entries`: each
/// plain file is recorded as an untranslatable file at its path, each directory as the
/// snapshot of its own listing, both in listing order; symbolic links and other entries
/// are not recorded.
pub open spec fn is_snapshot_of(d: Directory, root: Seq<Seq<char>>, entries: Seq<ScanEntry>) -> bool
    decreases entries,
{
    &&& d.path@ == root
    &&& d.name@ == last_name(root)
    &&& d.files@.len() == files_before(entries, entries.len() as int)
    &&& d.dirs@.len() == dirs_before(entries, entries.len() as int)
    &&& forall|k: int|
        0 <= k < entries.len() ==> match #[trigger] entries[k] {
            ScanEntry::File(n) => {
                let f = d.files@[files_before(entries, k) as int];
                &&& f.name@ == n@
                &&& f.path@ == root.push(n@)
                &&& !f.translatable
            },
            ScanEntry::Dir(n, children) => is_snapshot_of(
                d.dirs@[dirs_before(entries, k) as int],
                root.push(n@),
                children@,
            ),
            _ => true,
        }
}

/// The listing `entries` records its `k`-th entry in `d` as `is_snapshot_of` asks.
pub open spec fn entry_recorded(d: Directory, root: Seq<Seq<char>>, entries: Seq<ScanEntry>, k: int) -> bool {
    match entries[k] {
        ScanEntry::File(n) => {
            let f = d.files@[files_before(entries, k) as int];
            &&& f.name@ == n@
            &&& f.path@ == root.push(n@)
            &&& !f.translatable
        },
        ScanEntry::Dir(n, children) => is_snapshot_of(
            d.dirs@[dirs_before(entries, k) as int],
            root.push(n@),
            children@,
        ),
        _ => true,
    }
}

proof fn lemma_file_source(entries: Seq<ScanEntry>, n: int, i: int)
    requires
        0 <= n <= entries.len(),
        0 <= i < files_before(entries, n),
    ensures
        exists|k: int| 0 <= k < n && entries[k] is File && #[trigger] files_before(entries, k) == i,
    decreases n,
{
    if i < files_before(entries, n - 1) {
        lemma_file_source(entries, n - 1, i);
    } else {
        assert(entries[n - 1] is File && files_before(entries, n - 1) == i);
    }
}

proof fn lemma_dir_source(entries: Seq<ScanEntry>, n: int, j: int)
    requires
        0 <= n <= entries.len(),
        0 <= j < dirs_before(entries, n),
    ensures
        exists|k: int| 0 <= k < n && entries[k] is Dir && #[trigger] dirs_before(entries, k) == j,
    decreases n,
{
    if j < dirs_before(entries, n - 1) {
        lemma_dir_source(entries, n - 1, j);
    } else {
        assert(entries[n - 1] is Dir && dirs_before(entries, n - 1) == j);
    }
}

/// A snapshot is well formed, and none of its files is translatable.
pub proof fn lemma_snapshot_facts(d: Directory, root: Seq<Seq<char>>, entries: Seq<ScanEntry>)
    requires
        is_snapshot_of(d, root, entries),
    ensures
        well_formed(d),
        forall|q: Seq<Seq<char>>| !has_flagged(d, q, true),
    decreases entries,
{
    let n = entries.len() as int;
    assert forall|i: int| 0 <= i < d.files@.len() implies (#[trigger] d.files@[i]).path@ == d.path@.push(
        d.files@[i].name@,
    ) && !d.files@[i].translatable by {
        lemma_file_source(entries, n, i);
        let k = choose|k: int| 0 <= k < n && entries[k] is File && #[trigger] files_before(entries, k) == i;
        assert(entry_recorded(d, root, entries, k));
    }
    assert forall|j: int| 0 <= j < d.dirs@.len() implies (#[trigger] d.dirs@[j]).path@ == d.path@.push(
        d.dirs@[j].name@,
    ) && well_formed(d.dirs@[j]) && forall|q: Seq<Seq<char>>| !has_flagged(d.dirs@[j], q, true) by {
        lemma_dir_source(entries, n, j);
        let k = choose|k: int| 0 <= k < n && entries[k] is Dir && #[trigger] dirs_before(entries, k) == j;
        assert(entry_recorded(d, root, entries, k));
        if let ScanEntry::Dir(name, children) = entries[k] {
            lemma_snapshot_facts(d.dirs@[j], root.push(name@), children@);
        }
    }
    assert forall|q: Seq<Seq<char>>| !has_flagged(d, q, true) by {
        if has_flagged(d, q, true) {
            if exists|i: int|
                0 <= i < d.files@.len() && (#[trigger] d.files@[i]).path@ == q
                    && d.files@[i].translatable == true {
                let i = choose|i: int|
                    0 <= i < d.files@.len() && (#[trigger] d.files@[i]).path@ == q
                        && d.files@[i].translatable == true;
                assert(!d.files@[i].translatable);
            } else {
                let j = choose|j: int| 0 <= j < d.dirs@.len() && has_flagged(#[trigger] d.dirs@[j], q, true);
                assert(!has_flagged(d.dirs@[j], q, true));
            }
        }
    }
}

/// Rebuilding a snapshot from an unchanged listing yields the same tree: the same names,
/// paths and files, in the same order, every flag reset.
pub proof fn law_rebuild_same(d1: Directory, d2: Directory, root: Seq<Seq<char>>, entries: Seq<ScanEntry>)
    requires
        is_snapshot_of(d1, root, entries),
        is_snapshot_of(d2, root, entries),
    ensures
        same_tree(d1, d2),
        forall|q: Seq<Seq<char>>| !has_flagged(d2, q, true),
    decreases entries,
{
    lemma_snapshot_facts(d2, root, entries);
    let n = entries.len() as int;
    assert forall|i: int| 0 <= i < d1.files@.len() implies (#[trigger] d1.files@[i]).name@
        == d2.files@[i].name@ && d1.files@[i].path@ == d2.files@[i].path@
        && d1.files@[i].translatable == d2.files@[i].translatable by {
        lemma_file_source(entries, n, i);
        let k = choose|k: int| 0 <= k < n && entries[k] is File && #[trigger] files_before(entries, k) == i;
        assert(entry_recorded(d1, root, entries, k));
        assert(entry_recorded(d2, root, entries, k));
    }
    assert forall|j: int| 0 <= j < d1.dirs@.len() implies same_tree(#[trigger] d1.dirs@[j], d2.dirs@[j]) by {
        lemma_dir_source(entries, n, j);
        let k = choose|k: int| 0 <= k < n && entries[k] is Dir && #[trigger] dirs_before(entries, k) == j;
        assert(entry_recorded(d1, root, entries, k));
        assert(entry_recorded(d2, root, entries, k));
        if let ScanEntry::Dir(name, children) = entries[k] {
            law_rebuild_same(d1.dirs@[j], d2.dirs@[j], root.push(name@), children@);
        }
    }
}

proof fn lemma_counts_skip_link(entries: Seq<ScanEntry>, k: int, name: String, m: int)
    requires
        0 <= k <= entries.len(),
        0 <= m <= entries.len() + 1,
    ensures
        m <= k ==> files_before(entries.insert(k, ScanEntry::Symlink(name)), m) == files_before(entries, m)
            && dirs_before(entries.insert(k, ScanEntry::Symlink(name)), m) == dirs_before(entries, m),
        m > k ==> files_before(entries.insert(k, ScanEntry::Symlink(name)), m) == files_before(entries, m - 1)
            && dirs_before(entries.insert(k, ScanEntry::Symlink(name)), m) == dirs_before(entries, m - 1),
    decreases m,
{
    if m > 0 {
        lemma_counts_skip_link(entries, k, name, m - 1);
    }
}

/// A symbolic link leaves no trace in a snapshot: a tree is the snapshot of a listing
/// exactly when it is the snapshot of the same listing with a link put in anywhere.
pub proof fn law_symlinks_excluded(
    d: Directory,
    root: Seq<Seq<char>>,
    entries: Seq<ScanEntry>,
    k: int,
    name: String,
)
    requires
        0 <= k <= entries.len(),
    ensures
        is_snapshot_of(d, root, entries) <==> is_snapshot_of(
            d,
            root,
            entries.insert(k, ScanEntry::Symlink(name)),
        ),
{
    let linked = entries.insert(k, ScanEntry::Symlink(name));
    lemma_counts_skip_link(entries, k, name, entries.len() + 1int);
    if is_snapshot_of(d, root, entries) {
        assert forall|m: int| 0 <= m < linked.len() implies #[trigger] entry_recorded(d, root, linked, m) by {
            lemma_counts_skip_link(entries, k, name, m);
            if m < k {
                assert(entry_recorded(d, root, entries, m));
            } else if m > k {
                assert(linked[m] == entries[m - 1]);
                assert(entry_recorded(d, root, entries, m - 1));
            }
        }
        lemma_snapshot_from_records(d, root, linked);
    }
    if is_snapshot_of(d, root, linked) {
        assert forall|m: int| 0 <= m < entries.len() implies #[trigger] entry_recorded(d, root, entries, m) by {
            if m < k {
                lemma_counts_skip_link(entries, k, name, m);
                assert(linked[m] == entries[m]);
                assert(entry_recorded(d, root, linked, m));
            } else {
                lemma_counts_skip_link(entries, k, name, m + 1);
                assert(linked[m + 1] == entries[m]);
                assert(entry_recorded(d, root, linked, m + 1));
            }
        }
        lemma_snapshot_from_records(d, root, entries);
    }
}

proof fn lemma_counts_same_kinds(a: Seq<ScanEntry>, b: Seq<ScanEntry>, m: int)
    requires
        a.len() == b.len(),
        0 <= m <= a.len(),
        forall|i: int| 0 <= i < a.len() ==> (#[trigger] a[i] is File) == (b[i] is File) && (a[i] is Dir) == (b[i] is Dir),
    ensures
        files_before(a, m) == files_before(b, m),
        dirs_before(a, m) == dirs_before(b, m),
    decreases m,
{
    if m > 0 {
        lemma_counts_same_kinds(a, b, m - 1);
        assert(a[m - 1] is File == b[m - 1] is File);
    }
}

/// Changing the listing of a subdirectory, in a way that keeps which trees are its
/// snapshots, keeps which trees are snapshots of the whole listing. With
/// `law_symlinks_excluded`, a link put in at any depth leaves no trace.
pub proof fn law_nested_listing_change(
    d: Directory,
    root: Seq<Seq<char>>,
    entries: Seq<ScanEntry>,
    k: int,
    name: String,
    before: Vec<ScanEntry>,
    after: Vec<ScanEntry>,
)
    requires
        0 <= k < entries.len(),
        entries[k] == ScanEntry::Dir(name, before),
        forall|t: Directory|
            #[trigger] is_snapshot_of(t, root.push(name@), before@) == is_snapshot_of(
                t,
                root.push(name@),
                after@,
            ),
    ensures
        is_snapshot_of(d, root, entries) <==> is_snapshot_of(
            d,
            root,
            entries.update(k, ScanEntry::Dir(name, after)),
        ),
{
    let changed = entries.update(k, ScanEntry::Dir(name, after));
    assert forall|i: int| 0 <= i < entries.len() implies (#[trigger] entries[i] is File) == (changed[i] is File)
        && (entries[i] is Dir) == (changed[i] is Dir) by {}
    lemma_counts_same_kinds(entries, changed, entries.len() as int);
    assert forall|m: int| 0 <= m < entries.len() implies #[trigger] entry_recorded(d, root, entries, m)
        == entry_recorded(d, root, changed, m) by {
        lemma_counts_same_kinds(entries, changed, m);
        if m == k {
            let t = d.dirs@[dirs_before(entries, m) as int];
            assert(is_snapshot_of(t, root.push(name@), before@) == is_snapshot_of(t, root.push(name@), after@));
        }
    }
    if is_snapshot_of(d, root, entries) {
        assert forall|m: int| 0 <= m < changed.len() implies #[trigger] entry_recorded(d, root, changed, m) by {
            assert(entry_recorded(d, root, entries, m));
        }
        lemma_snapshot_from_records(d, root, changed);
    }
    if is_snapshot_of(d, root, changed) {
        assert forall|m: int| 0 <= m < entries.len() implies #[trigger] entry_recorded(d, root, entries, m) by {
            assert(entry_recorded(d, root, changed, m));
        }
        lemma_snapshot_from_records(d, root, entries);
    }
}

/// The name of a listing entry.
pub open spec fn entry_name(e: ScanEntry) -> Seq<char> {
    match e {
        ScanEntry::File(n) => n@,
        ScanEntry::Dir(n, _) => n@,
        ScanEntry::Symlink(n) => n@,
        ScanEntry::Other(n) => n@,
    }
}

/// Whether no two entries of a listing share a name, as in any directory.
pub open spec fn names_distinct(entries: Seq<ScanEntry>) -> bool {
    forall|i: int, j: int|
        0 <= i < entries.len() && 0 <= j < entries.len() && i != j ==> entry_name(
            #[trigger] entries[i],
        ) != entry_name(#[trigger] entries[j])
}

proof fn lemma_paths_below(d: Directory)
    requires
        well_formed(d),
    ensures
        forall|q: Seq<Seq<char>>| #[trigger] has_file(d, q) ==> is_prefix_of(d.path@, q),
        forall|q: Seq<Seq<char>>| #[trigger] has_dir(d, q) ==> is_prefix_of(d.path@, q),
    decreases d,
{
    let r = d.path@;
    assert forall|q: Seq<Seq<char>>| #[trigger] has_file(d, q) implies is_prefix_of(r, q) by {
        if exists|i: int| 0 <= i < d.files@.len() && (#[trigger] d.files@[i]).path@ == q {
            let i = choose|i: int| 0 <= i < d.files@.len() && (#[trigger] d.files@[i]).path@ == q;
            assert(q == r.push(d.files@[i].name@));
            assert(q.subrange(0, r.len() as int) =~= r);
        } else {
            let j = choose|j: int| 0 <= j < d.dirs@.len() && has_file(#[trigger] d.dirs@[j], q);
            let sub = d.dirs@[j];
            lemma_paths_below(sub);
            assert(has_file(sub, q));
            assert(is_prefix_of(sub.path@, q));
            assert(sub.path@ == r.push(sub.name@));
            assert(sub.path@.subrange(0, r.len() as int) =~= r);
            assert(q.subrange(0, r.len() as int) =~= sub.path@.subrange(0, r.len() as int));
        }
    }
    assert forall|q: Seq<Seq<char>>| #[trigger] has_dir(d, q) implies is_prefix_of(r, q) by {
        let j = choose|j: int|
            0 <= j < d.dirs@.len() && ((#[trigger] d.dirs@[j]).path@ == q || has_dir(d.dirs@[j], q));
        let sub = d.dirs@[j];
        lemma_paths_below(sub);
        assert(sub.path@ == r.push(sub.name@));
        assert(sub.path@.subrange(0, r.len() as int) =~= r);
        if sub.path@ != q {
            assert(has_dir(sub, q));
            assert(q.subrange(0, r.len() as int) =~= sub.path@.subrange(0, r.len() as int));
        }
    }
}

/// In the snapshot of a listing whose names are distinct, no file and no directory has
/// the path of a symbolic link of the listing, or a path beneath it.
pub proof fn law_symlink_path_unrecorded(d: Directory, root: Seq<Seq<char>>, entries: Seq<ScanEntry>, k: int)
    requires
        is_snapshot_of(d, root, entries),
        names_distinct(entries),
        0 <= k < entries.len(),
        entries[k] is Symlink,
    ensures
        forall|q: Seq<Seq<char>>|
            is_prefix_of(root.push(entry_name(entries[k])), q) ==> !#[trigger] has_file(d, q)
                && !has_dir(d, q),
{
    let n = entry_name(entries[k]);
    let len = entries.len() as int;
    lemma_snapshot_facts(d, root, entries);
    let at = root.len() as int;
    assert forall|q: Seq<Seq<char>>| is_prefix_of(root.push(n), q) implies !#[trigger] has_file(d, q)
        && !has_dir(d, q) by {
        assert(q[at] == root.push(n)[at]);
        if has_file(d, q) {
            if exists|i: int| 0 <= i < d.files@.len() && (#[trigger] d.files@[i]).path@ == q {
                let i = choose|i: int| 0 <= i < d.files@.len() && (#[trigger] d.files@[i]).path@ == q;
                lemma_file_source(entries, len, i);
                let k2 = choose|k2: int| 0 <= k2 < len && entries[k2] is File && #[trigger] files_before(entries, k2) == i;
                assert(entry_recorded(d, root, entries, k2));
                assert(entry_name(entries[k2]) != entry_name(entries[k]));
                assert(q[at] == entry_name(entries[k2]));
            } else {
                let j = choose|j: int| 0 <= j < d.dirs@.len() && has_file(#[trigger] d.dirs@[j], q);
                lemma_no_subdir_at_link(d, root, entries, k, j, q);
            }
        }
        if has_dir(d, q) {
            let j = choose|j: int|
                0 <= j < d.dirs@.len() && ((#[trigger] d.dirs@[j]).path@ == q || has_dir(d.dirs@[j], q));
            lemma_no_subdir_at_link(d, root, entries, k, j, q);
        }
    }
}

proof fn lemma_no_subdir_at_link(d: Directory, root: Seq<Seq<char>>, entries: Seq<ScanEntry>, k: int, j: int, q: Seq<Seq<char>>)
    requires
        is_snapshot_of(d, root, entries),
        well_formed(d),
        names_distinct(entries),
        0 <= k < entries.len(),
        entries[k] is Symlink,
        0 <= j < d.dirs@.len(),
        is_prefix_of(root.push(entry_name(entries[k])), q),
    ensures
        !(d.dirs@[j].path@ == q || has_file(d.dirs@[j], q) || has_dir(d.dirs@[j], q)),
{
    let len = entries.len() as int;
    let at = root.len() as int;
    let sub = d.dirs@[j];
    lemma_dir_source(entries, len, j);
    let k2 = choose|k2: int| 0 <= k2 < len && entries[k2] is Dir && #[trigger] dirs_before(entries, k2) == j;
    assert(entry_recorded(d, root, entries, k2));
    let name2 = entry_name(entries[k2]);
    assert(sub.path@ == root.push(name2));
    assert(name2 != entry_name(entries[k]));
    assert(well_formed(sub));
    lemma_paths_below(sub);
    assert(q[at] == root.push(entry_name(entries[k]))[at]);
    if d.dirs@[j].path@ == q || has_file(d.dirs@[j], q) || has_dir(d.dirs@[j], q) {
        assert(is_prefix_of(sub.path@, q));
        assert(q[at] == sub.path@[at]);
    }
}

/// Builds the snapshot of the directory at `root` from its listing. Every plain file is
/// recorded as untranslatable; every subdirectory is recorded, empty or not; symbolic
/// links are neither followed nor recorded.
pub fn build_tree(root: FsPath, entries: &Vec<ScanEntry>) -> (d: Directory)
    ensures
        is_snapshot_of(d, root@, entries@),
    decreases entries@,
{
    let ghost r = root@;
    let mut d = Directory::new(root);
    let mut k: usize = 0;
    while k < entries.len()
        invariant
            k <= entries.len(),
            d.path@ == r,
            d.name@ == last_name(r),
            d.files@.len() == files_before(entries@, k as int),
            d.dirs@.len() == dirs_before(entries@, k as int),
            forall|k2: int| 0 <= k2 < k ==> #[trigger] entry_recorded(d, r, entries@, k2),
        decreases entries.len() - k,
    {
        let ghost before = d;
        match &entries[k] {
            ScanEntry::File(n) => {
                let path = d.path.join_name(n.as_str());
                d.files.push(File { name: n.clone(), path, translatable: false });
            },
            ScanEntry::Dir(n, children) => {
                let path = d.path.join_name(n.as_str());
                let sub = build_tree(path, children);
                d.dirs.push(sub);
            },
            _ => {},
        }
        assert forall|k2: int| 0 <= k2 < k implies #[trigger] entry_recorded(d, r, entries@, k2) by {
            assert(entry_recorded(before, r, entries@, k2));
            lemma_counts_grow(entries@, k2, k as int);
        }
        k += 1;
        assert(entry_recorded(d, r, entries@, k - 1));
    }
    proof {
        lemma_snapshot_from_records(d, root@, entries@);
    }
    d
}

} // verus!
