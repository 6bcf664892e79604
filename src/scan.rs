//! The tree scanner: decides, for each directory listing, which files are
//! kept and which subdirectories are still to be visited.
//!
//! The caller reads directories; the scanner holds the pending-directory
//! stack and the files found so far.
use vstd::prelude::*;
use crate::path::{path_of, bytes_equal, child_path};

verus! {

/// What a directory entry is.
#[derive(Clone, Copy, Debug, PartialEq, Eq, Structural)]
pub enum EntryKind {
    File,
    Directory,
    Other,
}

/// One entry of a directory listing: its base name, kind and byte size.
pub struct DirEntryInfo {
    pub name: Vec<u8>,
    pub kind: EntryKind,
    pub size: u64,
}

/// A file that the scan kept: its path relative to the root, and its size.
pub struct FileEntry {
    pub path: Vec<Vec<u8>>,
    pub size: u64,
}

/// What a scan keeps and where it does not descend.
pub struct ScanConfig {
    /// Extensions (without the dot) that a kept file must have; `None` keeps
    /// every file.
    pub extensions: Option<Vec<Vec<u8>>>,
    /// Base names of directories whose subtrees are skipped.
    pub excluded: Vec<Vec<u8>>,
}

/// The model of a kept file: relative path and size.
pub open spec fn file_model(f: FileEntry) -> (Seq<Seq<u8>>, u64) {
    (path_of(&f.path), f.size)
}

/// The models of a sequence of kept files.
pub open spec fn files_model(fs: Seq<FileEntry>) -> Seq<(Seq<Seq<u8>>, u64)> {
    fs.map_values(|f: FileEntry| file_model(f))
}

/// Index of the last `.` among the first `n` bytes of `s`, or -1.
pub open spec fn last_dot(s: Seq<u8>, n: int) -> int
    decreases n,
{
    if n <= 0 {
        -1
    } else if s[n - 1] == 46u8 {
        n - 1
    } else {
        last_dot(s, n - 1)
    }
}

/// The extension of a file name: what follows its last `.`, where that dot
/// is not the name's first byte.
pub open spec fn ext_of(name: Seq<u8>) -> Option<Seq<u8>> {
    let k = last_dot(name, name.len() as int);
    if k <= 0 {
        None
    } else {
        Some(name.subrange(k + 1, name.len() as int))
    }
}

/// Whether a file of this name passes the configured extension filter.
pub open spec fn ext_allowed(config: ScanConfig, name: Seq<u8>) -> bool {
    match config.extensions {
        None => true,
        Some(l) => match ext_of(name) {
            None => false,
            Some(x) => path_of(&l).contains(x),
        },
    }
}

/// Whether a directory of this base name is skipped with its subtree.
pub open spec fn dir_excluded(config: ScanConfig, name: Seq<u8>) -> bool {
    path_of(&config.excluded).contains(name)
}

/// Whether a listing entry is a file that the scan keeps.
pub open spec fn keeps_file(config: ScanConfig, e: DirEntryInfo) -> bool {
    e.kind == EntryKind::File && ext_allowed(config, e.name@)
}

/// Whether a listing entry is a directory that the scan descends into.
pub open spec fn descends(config: ScanConfig, e: DirEntryInfo) -> bool {
    e.kind == EntryKind::Directory && !dir_excluded(config, e.name@)
}

/// The files that a listing of directory `dir` contributes, in listing order.
pub open spec fn kept_files(config: ScanConfig, dir: Seq<Seq<u8>>, listing: Seq<DirEntryInfo>) -> Seq<
    (Seq<Seq<u8>>, u64),
>
    decreases listing.len(),
{
    if listing.len() == 0 {
        seq![]
    } else {
        let rest = kept_files(config, dir, listing.drop_last());
        let e = listing.last();
        if keeps_file(config, e) {
            rest.push((dir.push(e.name@), e.size))
        } else {
            rest
        }
    }
}

/// The subdirectories that a listing of directory `dir` adds to the pending
/// stack, in listing order.
pub open spec fn new_dirs(config: ScanConfig, dir: Seq<Seq<u8>>, listing: Seq<DirEntryInfo>) -> Seq<
    Seq<Seq<u8>>,
>
    decreases listing.len(),
{
    if listing.len() == 0 {
        seq![]
    } else {
        let rest = new_dirs(config, dir, listing.drop_last());
        let e = listing.last();
        if descends(config, e) {
            rest.push(dir.push(e.name@))
        } else {
            rest
        }
    }
}

/// The files kept from a listing are exactly its entries that pass the
/// filters, each under `dir` joined with its name: which files a listing
/// yields does not depend on the order of its entries.
pub proof fn lemma_kept_files_members(
    config: ScanConfig,
    dir: Seq<Seq<u8>>,
    listing: Seq<DirEntryInfo>,
    x: (Seq<Seq<u8>>, u64),
)
    ensures
        kept_files(config, dir, listing).contains(x) <==> exists|i: int|
            0 <= i < listing.len() && keeps_file(config, #[trigger] listing[i]) && x == (
                dir.push(listing[i].name@),
                listing[i].size,
            ),
    decreases listing.len(),
{
    if listing.len() > 0 {
        let pre = listing.drop_last();
        lemma_kept_files_members(config, dir, pre, x);
        let k = kept_files(config, dir, listing);
        let kp = kept_files(config, dir, pre);
        if k.contains(x) {
            if kp.contains(x) {
                let i = choose|i: int|
                    0 <= i < pre.len() && keeps_file(config, #[trigger] pre[i]) && x == (
                        dir.push(pre[i].name@),
                        pre[i].size,
                    );
                assert(listing[i] == pre[i]);
            } else {
                let j = choose|j: int| 0 <= j < k.len() && k[j] == x;
                assert(j == kp.len());
                assert(listing[listing.len() - 1] == listing.last());
            }
        }
        if exists|i: int|
            0 <= i < listing.len() && keeps_file(config, #[trigger] listing[i]) && x == (
                dir.push(listing[i].name@),
                listing[i].size,
            ) {
            let i = choose|i: int|
                0 <= i < listing.len() && keeps_file(config, #[trigger] listing[i]) && x == (
                    dir.push(listing[i].name@),
                    listing[i].size,
                );
            if i < listing.len() - 1 {
                assert(pre[i] == listing[i]);
                let j = choose|j: int| 0 <= j < kp.len() && kp[j] == x;
                assert(k[j] == x);
            } else {
                assert(k[k.len() - 1] == x);
            }
        }
    }
}

/// Reading two directories in either order keeps the same set of files and
/// leaves the same directories pending: the outcome of a walk does not
/// depend on the traversal order.
pub proof fn lemma_visit_order_independent(
    config: ScanConfig,
    found: Seq<(Seq<Seq<u8>>, u64)>,
    pending: Seq<Seq<Seq<u8>>>,
    d1: Seq<Seq<u8>>,
    l1: Seq<DirEntryInfo>,
    d2: Seq<Seq<u8>>,
    l2: Seq<DirEntryInfo>,
)
    ensures
        (found + kept_files(config, d1, l1) + kept_files(config, d2, l2)).to_set() == (found
            + kept_files(config, d2, l2) + kept_files(config, d1, l1)).to_set(),
        (pending + new_dirs(config, d1, l1) + new_dirs(config, d2, l2)).to_multiset() == (pending
            + new_dirs(config, d2, l2) + new_dirs(config, d1, l1)).to_multiset(),
{
    let k1 = kept_files(config, d1, l1);
    let k2 = kept_files(config, d2, l2);
    let n1 = new_dirs(config, d1, l1);
    let n2 = new_dirs(config, d2, l2);
    broadcast use vstd::seq_lib::group_to_multiset_ensures;
    vstd::seq_lib::lemma_multiset_commutative(found + k1, k2);
    vstd::seq_lib::lemma_multiset_commutative(found, k1);
    vstd::seq_lib::lemma_multiset_commutative(found + k2, k1);
    vstd::seq_lib::lemma_multiset_commutative(found, k2);
    vstd::seq_lib::lemma_multiset_commutative(pending + n1, n2);
    vstd::seq_lib::lemma_multiset_commutative(pending, n1);
    vstd::seq_lib::lemma_multiset_commutative(pending + n2, n1);
    vstd::seq_lib::lemma_multiset_commutative(pending, n2);
    assert((found + k1 + k2).to_multiset() =~= (found + k2 + k1).to_multiset());
    assert((pending + n1 + n2).to_multiset() =~= (pending + n2 + n1).to_multiset());
    let a = found + k1 + k2;
    let b = found + k2 + k1;
    assert forall|x| a.to_set().contains(x) <==> b.to_set().contains(x) by {
        assert(a.contains(x) <==> a.to_multiset().count(x) > 0);
        assert(b.contains(x) <==> b.to_multiset().count(x) > 0);
    }
    assert(a.to_set() =~= b.to_set());
}

/// Whether `names` holds a byte string equal to `name`.
pub fn contains_name(names: &Vec<Vec<u8>>, name: &Vec<u8>) -> (r: bool)
    ensures
        r == path_of(names).contains(name@),
{
    let mut i: usize = 0;
    while i < names.len()
        invariant
            i <= names.len(),
            forall|j: int| 0 <= j < i ==> names@[j]@ != name@,
        decreases names.len() - i,
    {
        if bytes_equal(&names[i], name) {
            assert(path_of(names)[i as int] == name@);
            return true;
        }
        i = i + 1;
    }
    assert(!path_of(names).contains(name@)) by {
        if path_of(names).contains(name@) {
            let j = choose|j: int| 0 <= j < path_of(names).len() && path_of(names)[j] == name@;
            assert(names@[j]@ == name@);
        }
    }
    false
}

/// The extension of a file name (see `ext_of`).
pub fn extension_of(name: &Vec<u8>) -> (r: Option<Vec<u8>>)
    ensures
        match (r, ext_of(name@)) {
            (None, None) => true,
            (Some(x), Some(y)) => x@ == y,
            _ => false,
        },
{
    let mut n: usize = name.len();
    while n > 0 && name[n - 1] != 46u8
        invariant
            n <= name.len(),
            last_dot(name@, name@.len() as int) == last_dot(name@, n as int),
        decreases n,
    {
        n = n - 1;
    }
    if n <= 1 {
        return None;
    }
    let k: usize = n - 1;
    let mut ext: Vec<u8> = Vec::new();
    let mut i: usize = k + 1;
    while i < name.len()
        invariant
            k + 1 <= i <= name.len(),
            ext@ == name@.subrange(k + 1, i as int),
        decreases name.len() - i,
    {
        ext.push(name[i]);
        assert(name@.subrange(k + 1, i + 1) =~= name@.subrange(k + 1, i as int).push(name@[i as int]));
        i = i + 1;
    }
    Some(ext)
}

/// Whether a file of this name passes the configured extension filter.
pub fn extension_allowed(config: &ScanConfig, name: &Vec<u8>) -> (r: bool)
    ensures
        r == ext_allowed(*config, name@),
{
    match &config.extensions {
        None => true,
        Some(l) => match extension_of(name) {
            None => false,
            Some(x) => contains_name(l, &x),
        },
    }
}

/// Whether a directory of this base name is skipped with its subtree.
pub fn is_excluded_dir(config: &ScanConfig, name: &Vec<u8>) -> (r: bool)
    ensures
        r == dir_excluded(*config, name@),
{
    contains_name(&config.excluded, name)
}

/// Why a walk cannot start: the root must be an existing directory.
#[derive(Clone, Copy, Debug, PartialEq, Eq, Structural)]
pub enum PreconditionError {
    RootMissing,
    RootNotDirectory,
}

/// Checks the root before any work: it must exist and be a directory.
pub fn check_root(exists: bool, is_dir: bool) -> (r: Result<(), PreconditionError>)
    ensures
        !exists ==> r == Err::<(), PreconditionError>(PreconditionError::RootMissing),
        exists && !is_dir ==> r == Err::<(), PreconditionError>(PreconditionError::RootNotDirectory),
        exists && is_dir ==> r is Ok,
{
    if !exists {
        Err(PreconditionError::RootMissing)
    } else if !is_dir {
        Err(PreconditionError::RootNotDirectory)
    } else {
        Ok(())
    }
}

/// The number of entries of `kinds` that are of kind `k`.
pub open spec fn count_kind(kinds: Seq<EntryKind>, k: EntryKind) -> nat
    decreases kinds.len(),
{
    if kinds.len() == 0 {
        0
    } else {
        count_kind(kinds.drop_last(), k) + if kinds.last() == k {
            1nat
        } else {
            0nat
        }
    }
}

proof fn lemma_count_kind_le(kinds: Seq<EntryKind>, k: EntryKind)
    ensures
        count_kind(kinds, k) <= kinds.len(),
    decreases kinds.len(),
{
    if kinds.len() > 0 {
        lemma_count_kind_le(kinds.drop_last(), k);
    }
}

/// How many of the entries are files, and how many are directories.
pub fn count_files_and_dirs(kinds: &Vec<EntryKind>) -> (r: (usize, usize))
    ensures
        r.0 == count_kind(kinds@, EntryKind::File),
        r.1 == count_kind(kinds@, EntryKind::Directory),
{
    let mut files: usize = 0;
    let mut dirs: usize = 0;
    let mut i: usize = 0;
    while i < kinds.len()
        invariant
            i <= kinds.len(),
            files == count_kind(kinds@.subrange(0, i as int), EntryKind::File),
            dirs == count_kind(kinds@.subrange(0, i as int), EntryKind::Directory),
        decreases kinds.len() - i,
    {
        let ghost pre = kinds@.subrange(0, i as int);
        let ghost post = kinds@.subrange(0, i + 1);
        assert(post.drop_last() =~= pre);
        proof {
            lemma_count_kind_le(pre, EntryKind::File);
            lemma_count_kind_le(pre, EntryKind::Directory);
        }
        match kinds[i] {
            EntryKind::File => files = files + 1,
            EntryKind::Directory => dirs = dirs + 1,
            EntryKind::Other => {},
        }
        i = i + 1;
    }
    assert(kinds@.subrange(0, kinds@.len() as int) =~= kinds@);
    (files, dirs)
}

/// The models of a stack of directory paths.
pub open spec fn dirs_model(ds: Seq<Vec<Vec<u8>>>) -> Seq<Seq<Seq<u8>>> {
    ds.map_values(|d: Vec<Vec<u8>>| path_of(&d))
}

/// A walk in progress: the directories still to be read, and the files kept
/// so far. The walk starts at the root (the empty path) and is over when no
/// directory is pending.
pub struct Scanner {
    pub config: ScanConfig,
    pub pending: Vec<Vec<Vec<u8>>>,
    pub found: Vec<FileEntry>,
}

impl Scanner {
    /// A walk that has only the root left to read.
    pub fn new(config: ScanConfig) -> (r: Scanner)
        ensures
            r.config == config,
            dirs_model(r.pending@) == seq![Seq::<Seq<u8>>::empty()],
            r.found@.len() == 0,
    {
        let mut pending: Vec<Vec<Vec<u8>>> = Vec::new();
        let root: Vec<Vec<u8>> = Vec::new();
        assert(path_of(&root) =~= Seq::<Seq<u8>>::empty());
        pending.push(root);
        let r = Scanner { config, pending, found: Vec::new() };
        assert(dirs_model(r.pending@) =~= seq![Seq::<Seq<u8>>::empty()]);
        r
    }

    /// Whether every directory reached has been read.
    pub fn is_done(&self) -> (r: bool)
        ensures
            r == (self.pending@.len() == 0),
    {
        self.pending.len() == 0
    }

    /// Takes the next directory to read off the pending stack, most recently
    /// added first; `None` when the walk is over.
    pub fn next_dir(&mut self) -> (r: Option<Vec<Vec<u8>>>)
        ensures
            final(self).config == old(self).config,
            final(self).found@ == old(self).found@,
            old(self).pending@.len() == 0 ==> r is None && final(self).pending@ == old(self).pending@,
            old(self).pending@.len() > 0 ==> r is Some && path_of(&r->0) == dirs_model(old(self).pending@).last()
                && dirs_model(final(self).pending@) == dirs_model(old(self).pending@).drop_last(),
    {
        let r = self.pending.pop();
        proof {
            if old(self).pending@.len() > 0 {
                assert(dirs_model(self.pending@) =~= dirs_model(old(self).pending@).drop_last());
            }
        }
        r
    }

    /// Reads the listing of directory `dir`: keeps each file that passes the
    /// extension filter, under its path relative to the root, and pushes each
    /// subdirectory whose name is not excluded onto the pending stack.
    /// Excluded directories are never descended into.
    pub fn visit(&mut self, dir: &Vec<Vec<u8>>, listing: &Vec<DirEntryInfo>)
        ensures
            final(self).config == old(self).config,
            files_model(final(self).found@) == files_model(old(self).found@) + kept_files(
                old(self).config,
                path_of(dir),
                listing@,
            ),
            dirs_model(final(self).pending@) == dirs_model(old(self).pending@) + new_dirs(
                old(self).config,
                path_of(dir),
                listing@,
            ),
    {
        let ghost d = path_of(dir);
        let mut i: usize = 0;
        while i < listing.len()
            invariant
                i <= listing.len(),
                d == path_of(dir),
                self.config == old(self).config,
                files_model(self.found@) == files_model(old(self).found@) + kept_files(
                    self.config,
                    d,
                    listing@.subrange(0, i as int),
                ),
                dirs_model(self.pending@) == dirs_model(old(self).pending@) + new_dirs(
                    self.config,
                    d,
                    listing@.subrange(0, i as int),
                ),
            decreases listing.len() - i,
        {
            let e = &listing[i];
            let ghost pre = listing@.subrange(0, i as int);
            let ghost post = listing@.subrange(0, i + 1);
            assert(post.drop_last() =~= pre);
            assert(post.last() == *e);
            let ghost found0 = self.found@;
            let ghost pending0 = self.pending@;
            let keep = e.kind == EntryKind::File && extension_allowed(&self.config, &e.name);
            let descend = e.kind == EntryKind::Directory && !is_excluded_dir(&self.config, &e.name);
            assert(keep == keeps_file(self.config, *e));
            assert(descend == descends(self.config, *e));
            if keep {
                let p = child_path(dir, &e.name);
                let f = FileEntry { path: p, size: e.size };
                self.found.push(f);
                assert(file_model(f) == (d.push(e.name@), e.size));
                assert(files_model(self.found@) =~= files_model(found0).push(file_model(f)));
            }
            if descend {
                let p = child_path(dir, &e.name);
                self.pending.push(p);
                assert(dirs_model(self.pending@) =~= dirs_model(pending0).push(path_of(&p)));
            }
            assert(kept_files(self.config, d, post) == if keeps_file(self.config, *e) {
                kept_files(self.config, d, pre).push((d.push(e.name@), e.size))
            } else {
                kept_files(self.config, d, pre)
            });
            assert(new_dirs(self.config, d, post) == if descends(self.config, *e) {
                new_dirs(self.config, d, pre).push(d.push(e.name@))
            } else {
                new_dirs(self.config, d, pre)
            });
            assert(files_model(self.found@) =~= files_model(old(self).found@) + kept_files(self.config, d, post));
            assert(dirs_model(self.pending@) =~= dirs_model(old(self).pending@) + new_dirs(self.config, d, post));
            i = i + 1;
        }
        assert(listing@.subrange(0, listing@.len() as int) =~= listing@);
    }
}

} // verus!
