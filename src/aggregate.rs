//! Per-directory aggregation of the files that a walk kept: each file counts
//! towards its immediate parent directory.
use vstd::prelude::*;
use crate::path::{path_of, paths_equal, copy_path};
use crate::scan::FileEntry;

verus! {

/// One row of a report: a directory (or file) path, how many files it
/// accounts for, and their total size in bytes.
pub struct AggregateRecord {
    pub path: Vec<Vec<u8>>,
    pub file_count: u64,
    pub total_size: u64,
}

/// The directory that directly holds an entry of path `p`.
pub open spec fn parent_of(p: Seq<Seq<u8>>) -> Seq<Seq<u8>> {
    if p.len() == 0 {
        p
    } else {
        p.drop_last()
    }
}

/// The key of a record.
pub open spec fn rec_key(r: AggregateRecord) -> Seq<Seq<u8>> {
    path_of(&r.path)
}

/// The number of files of `fs` directly inside directory `dir`.
pub open spec fn count_in(fs: Seq<FileEntry>, dir: Seq<Seq<u8>>) -> nat
    decreases fs.len(),
{
    if fs.len() == 0 {
        0
    } else {
        count_in(fs.drop_last(), dir) + if parent_of(path_of(&fs.last().path)) == dir {
            1nat
        } else {
            0nat
        }
    }
}

/// The total size of the files of `fs` directly inside directory `dir`.
pub open spec fn size_in(fs: Seq<FileEntry>, dir: Seq<Seq<u8>>) -> nat
    decreases fs.len(),
{
    if fs.len() == 0 {
        0
    } else {
        size_in(fs.drop_last(), dir) + if parent_of(path_of(&fs.last().path)) == dir {
            fs.last().size as nat
        } else {
            0nat
        }
    }
}

/// The total size of all files of `fs`.
pub open spec fn total_of(fs: Seq<FileEntry>) -> nat
    decreases fs.len(),
{
    if fs.len() == 0 {
        0
    } else {
        total_of(fs.drop_last()) + fs.last().size as nat
    }
}

/// The sum of `total_size` over a sequence of records.
pub open spec fn records_size(recs: Seq<AggregateRecord>) -> nat
    decreases recs.len(),
{
    if recs.len() == 0 {
        0
    } else {
        records_size(recs.drop_last()) + recs.last().total_size as nat
    }
}

/// `recs` is the per-directory aggregate of `fs`: one record per directory
/// that directly holds a file of `fs`, with that directory's file count and
/// total size, and no other record.
pub open spec fn aggregates(fs: Seq<FileEntry>, recs: Seq<AggregateRecord>) -> bool {
    &&& forall|i: int, j: int|
        0 <= i < j < recs.len() ==> rec_key(#[trigger] recs[i]) != rec_key(#[trigger] recs[j])
    &&& forall|i: int|
        0 <= i < recs.len() ==> {
            &&& (#[trigger] recs[i]).file_count == count_in(fs, rec_key(recs[i]))
            &&& recs[i].total_size == size_in(fs, rec_key(recs[i]))
            &&& recs[i].file_count > 0
        }
    &&& forall|k: int|
        0 <= k < fs.len() ==> exists|i: int|
            0 <= i < recs.len() && rec_key(#[trigger] recs[i]) == parent_of(
                path_of(&(#[trigger] fs[k]).path),
            )
}

proof fn lemma_size_in_le_total(fs: Seq<FileEntry>, dir: Seq<Seq<u8>>)
    ensures
        size_in(fs, dir) <= total_of(fs),
        count_in(fs, dir) <= fs.len(),
    decreases fs.len(),
{
    if fs.len() > 0 {
        lemma_size_in_le_total(fs.drop_last(), dir);
    }
}

proof fn lemma_total_prefix(fs: Seq<FileEntry>, i: int)
    requires
        0 <= i <= fs.len(),
    ensures
        total_of(fs.subrange(0, i)) <= total_of(fs),
    decreases fs.len() - i,
{
    if i < fs.len() {
        lemma_total_prefix(fs, i + 1);
        assert(fs.subrange(0, i + 1).drop_last() =~= fs.subrange(0, i));
    } else {
        assert(fs.subrange(0, i) =~= fs);
    }
}

/// The directory holding a file: its path without the last component.
pub fn parent_path(p: &Vec<Vec<u8>>) -> (r: Vec<Vec<u8>>)
    ensures
        path_of(&r) == parent_of(path_of(p)),
{
    let mut r: Vec<Vec<u8>> = Vec::new();
    if p.len() == 0 {
        assert(path_of(&r) =~= path_of(p));
        return r;
    }
    let n = p.len() - 1;
    let mut i: usize = 0;
    while i < n
        invariant
            n == p.len() - 1,
            i <= n,
            r@.len() == i,
            forall|j: int| 0 <= j < i ==> r@[j]@ == p@[j]@,
        decreases n - i,
    {
        r.push(p[i].clone());
        i = i + 1;
    }
    assert(path_of(&r) =~= path_of(p).drop_last());
    r
}

/// Aggregates files per immediate parent directory: file count and total
/// size of each directory that directly holds at least one of the files.
pub fn aggregate_by_directory(files: &Vec<FileEntry>) -> (r: Vec<AggregateRecord>)
    requires
        total_of(files@) <= u64::MAX,
    ensures
        aggregates(files@, r@),
{
    let mut recs: Vec<AggregateRecord> = Vec::new();
    let mut i: usize = 0;
    while i < files.len()
        invariant
            i <= files.len(),
            total_of(files@) <= u64::MAX,
            aggregates(files@.subrange(0, i as int), recs@),
        decreases files.len() - i,
    {
        let ghost pre = files@.subrange(0, i as int);
        let ghost post = files@.subrange(0, i + 1);
        assert(post.drop_last() =~= pre);
        let f = &files[i];
        assert(post.last() == *f);
        let dir = parent_path(&f.path);
        let ghost pd = path_of(&dir);
        proof {
            lemma_total_prefix(files@, i + 1);
            lemma_size_in_le_total(post, pd);
        }
        let mut j: usize = 0;
        while j < recs.len() && !paths_equal(&recs[j].path, &dir)
            invariant
                j <= recs.len(),
                pd == path_of(&dir),
                forall|m: int| 0 <= m < j ==> rec_key(#[trigger] recs@[m]) != pd,
            decreases recs.len() - j,
        {
            j = j + 1;
        }
        if j < recs.len() {
            let c = recs[j].file_count;
            let s = recs[j].total_size;
            assert(rec_key(recs@[j as int]) == pd);
            assert(count_in(post, pd) == c + 1);
            assert(size_in(post, pd) == s + f.size);
            let p = copy_path(&recs[j].path);
            let ghost before = recs@;
            recs.set(j, AggregateRecord { path: p, file_count: c + 1, total_size: s + f.size });
            assert forall|m: int| 0 <= m < recs@.len() implies rec_key(#[trigger] recs@[m]) == rec_key(before[m]) by {}
            assert forall|k: int| 0 <= k < post.len() implies exists|m: int|
                0 <= m < recs@.len() && rec_key(#[trigger] recs@[m]) == parent_of(
                    path_of(&(#[trigger] post[k]).path),
                ) by {
                if k < pre.len() {
                    assert(pre[k] == post[k]);
                    let m = choose|m: int|
                        0 <= m < before.len() && rec_key(#[trigger] before[m]) == parent_of(
                            path_of(&(#[trigger] pre[k]).path),
                        );
                    assert(rec_key(recs@[m]) == rec_key(before[m]));
                } else {
                    assert(rec_key(recs@[j as int]) == pd);
                }
            }
        } else {
            let ghost before = recs@;
            assert(count_in(post, pd) == 1) by {
                if count_in(pre, pd) > 0 {
                    lemma_count_has_file(pre, pd);
                    let k = choose|k: int| 0 <= k < pre.len() && parent_of(path_of(&pre[k].path)) == pd;
                    assert(pre[k] == pre[k]);
                }
            }
            assert(size_in(pre, pd) == 0) by {
                lemma_size_zero_without_count(pre, pd);
            }
            recs.push(AggregateRecord { path: dir, file_count: 1, total_size: f.size });
            assert forall|k: int| 0 <= k < post.len() implies exists|m: int|
                0 <= m < recs@.len() && rec_key(#[trigger] recs@[m]) == parent_of(
                    path_of(&(#[trigger] post[k]).path),
                ) by {
                if k < pre.len() {
                    assert(pre[k] == post[k]);
                    let m = choose|m: int|
                        0 <= m < before.len() && rec_key(#[trigger] before[m]) == parent_of(
                            path_of(&(#[trigger] pre[k]).path),
                        );
                    assert(recs@[m] == before[m]);
                } else {
                    assert(rec_key(recs@[before.len() as int]) == pd);
                }
            }
        }
        i = i + 1;
    }
    assert(files@.subrange(0, files@.len() as int) =~= files@);
    recs
}

/// The sum, over directories `ks`, of the size of the files of `fs` directly
/// inside each.
pub open spec fn size_over(fs: Seq<FileEntry>, ks: Seq<Seq<Seq<u8>>>) -> nat
    decreases ks.len(),
{
    if ks.len() == 0 {
        0
    } else {
        size_over(fs, ks.drop_last()) + size_in(fs, ks.last())
    }
}

proof fn lemma_size_over_push(fs: Seq<FileEntry>, f: FileEntry, ks: Seq<Seq<Seq<u8>>>)
    requires
        forall|i: int, j: int| 0 <= i < j < ks.len() ==> ks[i] != ks[j],
    ensures
        size_over(fs.push(f), ks) == size_over(fs, ks) + if ks.contains(parent_of(path_of(&f.path))) {
            f.size as nat
        } else {
            0nat
        },
    decreases ks.len(),
{
    if ks.len() > 0 {
        let pre = ks.drop_last();
        let p = parent_of(path_of(&f.path));
        lemma_size_over_push(fs, f, pre);
        assert(fs.push(f).drop_last() =~= fs);
        assert(size_in(fs.push(f), ks.last()) == size_in(fs, ks.last()) + if ks.last() == p {
            f.size as nat
        } else {
            0nat
        });
        if ks.contains(p) {
            let i = choose|i: int| 0 <= i < ks.len() && ks[i] == p;
            if i < ks.len() - 1 {
                assert(pre[i] == p);
                assert(ks.last() != p) by {
                    assert(ks[ks.len() - 1] == ks.last());
                }
            } else {
                assert(!pre.contains(p)) by {
                    if pre.contains(p) {
                        let m = choose|m: int| 0 <= m < pre.len() && pre[m] == p;
                        assert(ks[m] == pre[m]);
                    }
                }
            }
        } else {
            assert(!pre.contains(p)) by {
                if pre.contains(p) {
                    let m = choose|m: int| 0 <= m < pre.len() && pre[m] == p;
                    assert(ks[m] == pre[m]);
                }
            }
            assert(ks.last() != p) by {
                assert(ks[ks.len() - 1] == ks.last());
            }
        }
    }
}

proof fn lemma_size_over_total(fs: Seq<FileEntry>, ks: Seq<Seq<Seq<u8>>>)
    requires
        forall|i: int, j: int| 0 <= i < j < ks.len() ==> ks[i] != ks[j],
        forall|k: int| 0 <= k < fs.len() ==> ks.contains(parent_of(path_of(&(#[trigger] fs[k]).path))),
    ensures
        size_over(fs, ks) == total_of(fs),
    decreases fs.len(),
{
    if fs.len() == 0 {
        lemma_size_over_empty(fs, ks);
    } else {
        let pre = fs.drop_last();
        assert forall|k: int| 0 <= k < pre.len() implies ks.contains(
            parent_of(path_of(&(#[trigger] pre[k]).path)),
        ) by {
            assert(fs[k] == pre[k]);
        }
        lemma_size_over_total(pre, ks);
        assert(pre.push(fs.last()) =~= fs);
        assert(fs[fs.len() - 1] == fs.last());
        lemma_size_over_push(pre, fs.last(), ks);
    }
}

proof fn lemma_size_over_empty(fs: Seq<FileEntry>, ks: Seq<Seq<Seq<u8>>>)
    requires
        fs.len() == 0,
    ensures
        size_over(fs, ks) == 0,
    decreases ks.len(),
{
    if ks.len() > 0 {
        lemma_size_over_empty(fs, ks.drop_last());
    }
}

proof fn lemma_records_size_over(fs: Seq<FileEntry>, recs: Seq<AggregateRecord>)
    requires
        forall|i: int| 0 <= i < recs.len() ==> (#[trigger] recs[i]).total_size == size_in(fs, rec_key(recs[i])),
    ensures
        records_size(recs) == size_over(fs, recs.map_values(|r: AggregateRecord| rec_key(r))),
    decreases recs.len(),
{
    if recs.len() > 0 {
        let pre = recs.drop_last();
        assert forall|i: int| 0 <= i < pre.len() implies (#[trigger] pre[i]).total_size == size_in(fs, rec_key(pre[i])) by {
            assert(recs[i] == pre[i]);
        }
        lemma_records_size_over(fs, pre);
        let ks = recs.map_values(|r: AggregateRecord| rec_key(r));
        assert(ks.drop_last() =~= pre.map_values(|r: AggregateRecord| rec_key(r)));
        assert(recs[recs.len() - 1] == recs.last());
    }
}

/// Conservation of size: the `total_size` of the per-directory records of a
/// set of files adds up to the total size of those files.
pub proof fn lemma_size_conserved(fs: Seq<FileEntry>, recs: Seq<AggregateRecord>)
    requires
        aggregates(fs, recs),
    ensures
        records_size(recs) == total_of(fs),
{
    let ks = recs.map_values(|r: AggregateRecord| rec_key(r));
    lemma_records_size_over(fs, recs);
    assert forall|k: int| 0 <= k < fs.len() implies ks.contains(parent_of(path_of(&(#[trigger] fs[k]).path))) by {
        let i = choose|i: int|
            0 <= i < recs.len() && rec_key(#[trigger] recs[i]) == parent_of(path_of(&fs[k].path));
        assert(ks[i] == rec_key(recs[i]));
    }
    assert forall|i: int, j: int| 0 <= i < j < ks.len() implies ks[i] != ks[j] by {
        assert(ks[i] == rec_key(recs[i]));
        assert(ks[j] == rec_key(recs[j]));
    }
    lemma_size_over_total(fs, ks);
}

/// When the files have no size at all, every record's total is zero, so
/// every record's share of the total is zero too.
pub proof fn lemma_zero_total_zero_records(fs: Seq<FileEntry>, recs: Seq<AggregateRecord>)
    requires
        aggregates(fs, recs),
        total_of(fs) == 0,
    ensures
        forall|i: int| 0 <= i < recs.len() ==> (#[trigger] recs[i]).total_size == 0,
{
    assert forall|i: int| 0 <= i < recs.len() implies (#[trigger] recs[i]).total_size == 0 by {
        lemma_size_in_le_total(fs, rec_key(recs[i]));
    }
}

pub(crate) proof fn lemma_count_has_file(fs: Seq<FileEntry>, dir: Seq<Seq<u8>>)
    requires
        count_in(fs, dir) > 0,
    ensures
        exists|k: int| 0 <= k < fs.len() && parent_of(path_of(&fs[k].path)) == dir,
    decreases fs.len(),
{
    if parent_of(path_of(&fs.last().path)) == dir {
        assert(fs[fs.len() - 1] == fs.last());
    } else {
        lemma_count_has_file(fs.drop_last(), dir);
        let k = choose|k: int| 0 <= k < fs.len() - 1 && parent_of(path_of(&fs.drop_last()[k].path)) == dir;
        assert(fs.drop_last()[k] == fs[k]);
    }
}

proof fn lemma_size_zero_without_count(fs: Seq<FileEntry>, dir: Seq<Seq<u8>>)
    requires
        count_in(fs, dir) == 0,
    ensures
        size_in(fs, dir) == 0,
    decreases fs.len(),
{
    if fs.len() > 0 {
        lemma_size_zero_without_count(fs.drop_last(), dir);
    }
}

} // verus!
