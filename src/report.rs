//! Ordering of report records: by path, by total size or by file count,
//! with ties broken by path.
use vstd::prelude::*;
use crate::path::{path_cmp, compare_paths, lemma_path_cmp_antisym, lemma_path_cmp_eq,
    lemma_path_cmp_range, lemma_path_cmp_trans};
use crate::aggregate::{AggregateRecord, rec_key};
use crate::path::{path_of, copy_path};
use crate::scan::FileEntry;

verus! {

/// The order in which a report lists its records.
#[derive(Clone, Copy, Debug, PartialEq, Eq, Structural)]
pub enum SortKey {
    /// Path, ascending.
    Path,
    /// Total size, largest first; equal sizes by path.
    Size,
    /// File count, largest first; equal counts by path.
    Count,
}

/// Three-way comparison of two records under a sort key: negative when `a`
/// comes first.
pub open spec fn rec_cmp(a: AggregateRecord, b: AggregateRecord, key: SortKey) -> int {
    match key {
        SortKey::Path => path_cmp(rec_key(a), rec_key(b)),
        SortKey::Size => if a.total_size > b.total_size {
            -1
        } else if a.total_size < b.total_size {
            1
        } else {
            path_cmp(rec_key(a), rec_key(b))
        },
        SortKey::Count => if a.file_count > b.file_count {
            -1
        } else if a.file_count < b.file_count {
            1
        } else {
            path_cmp(rec_key(a), rec_key(b))
        },
    }
}

/// Whether `s` is in the order of `key`.
pub open spec fn sorted_by(s: Seq<AggregateRecord>, key: SortKey) -> bool {
    forall|i: int, j: int| 0 <= i < j < s.len() ==> rec_cmp(#[trigger] s[i], #[trigger] s[j], key) <= 0
}

/// Whether no two records of `s` have the same path.
pub open spec fn distinct_paths(s: Seq<AggregateRecord>) -> bool {
    forall|i: int, j: int| 0 <= i < j < s.len() ==> rec_key(#[trigger] s[i]) != rec_key(#[trigger] s[j])
}

/// Each sort key orders records totally: the comparison is antisymmetric and
/// transitive, and two records tie only when they have the same path, which
/// the tie-break on path guarantees.
pub proof fn lemma_rec_cmp_total_order(a: AggregateRecord, b: AggregateRecord, c: AggregateRecord, key: SortKey)
    ensures
        -1 <= rec_cmp(a, b, key) <= 1,
        rec_cmp(a, b, key) == -rec_cmp(b, a, key),
        rec_cmp(a, b, key) <= 0 || rec_cmp(b, a, key) <= 0,
        rec_cmp(a, b, key) == 0 ==> rec_key(a) == rec_key(b),
        rec_cmp(a, b, key) <= 0 && rec_cmp(b, c, key) <= 0 ==> rec_cmp(a, c, key) <= 0,
{
    lemma_path_cmp_range(rec_key(a), rec_key(b));
    lemma_path_cmp_antisym(rec_key(a), rec_key(b));
    lemma_path_cmp_eq(rec_key(a), rec_key(b));
    if rec_cmp(a, b, key) <= 0 && rec_cmp(b, c, key) <= 0 {
        if path_cmp(rec_key(a), rec_key(b)) <= 0 && path_cmp(rec_key(b), rec_key(c)) <= 0 {
            lemma_path_cmp_trans(rec_key(a), rec_key(b), rec_key(c));
        }
    }
}

/// Sorting is deterministic: two orderings by the same key of the same
/// records, whose paths are distinct, are the same sequence. Sorting again a
/// sorted sequence therefore gives it back unchanged.
pub proof fn lemma_sorted_unique(s1: Seq<AggregateRecord>, s2: Seq<AggregateRecord>, key: SortKey)
    requires
        sorted_by(s1, key),
        sorted_by(s2, key),
        s1.to_multiset() == s2.to_multiset(),
        distinct_paths(s1),
    ensures
        s1 == s2,
    decreases s1.len(),
{
    broadcast use vstd::seq_lib::group_to_multiset_ensures;
    if s1.len() == 0 {
        assert(s2.to_multiset().len() == 0);
        assert(s1 =~= s2);
    } else {
        assert(s2.len() == s1.len()) by {
            assert(s1.to_multiset().len() == s1.len());
            assert(s2.to_multiset().len() == s2.len());
        }
        assert(s1.contains(s2[0])) by {
            assert(s2.to_multiset().count(s2[0]) > 0);
        }
        assert(s2.contains(s1[0])) by {
            assert(s1.to_multiset().count(s1[0]) > 0);
        }
        let k = choose|k: int| 0 <= k < s1.len() && s1[k] == s2[0];
        let m = choose|m: int| 0 <= m < s2.len() && s2[m] == s1[0];
        if k != 0 {
            assert(rec_cmp(s1[0], s1[k], key) <= 0);
            if m != 0 {
                assert(rec_cmp(s2[0], s2[m], key) <= 0);
            }
            lemma_rec_cmp_total_order(s1[0], s1[k], s1[0], key);
            assert(rec_key(s1[0]) != rec_key(s1[k]));
            assert(false);
        }
        assert(s1[0] == s2[0]);
        let t1 = s1.remove(0);
        let t2 = s2.remove(0);
        assert(t1 =~= s1.drop_first());
        assert(t2 =~= s2.drop_first());
        assert(t1.to_multiset() =~= t2.to_multiset());
        assert(sorted_by(t1, key)) by {
            assert forall|i: int, j: int| 0 <= i < j < t1.len() implies rec_cmp(#[trigger] t1[i], #[trigger] t1[j], key) <= 0 by {
                assert(t1[i] == s1[i + 1] && t1[j] == s1[j + 1]);
            }
        }
        assert(sorted_by(t2, key)) by {
            assert forall|i: int, j: int| 0 <= i < j < t2.len() implies rec_cmp(#[trigger] t2[i], #[trigger] t2[j], key) <= 0 by {
                assert(t2[i] == s2[i + 1] && t2[j] == s2[j + 1]);
            }
        }
        assert(distinct_paths(t1)) by {
            assert forall|i: int, j: int| 0 <= i < j < t1.len() implies rec_key(#[trigger] t1[i]) != rec_key(#[trigger] t1[j]) by {
                assert(t1[i] == s1[i + 1] && t1[j] == s1[j + 1]);
            }
        }
        lemma_sorted_unique(t1, t2, key);
        assert(s1 =~= seq![s1[0]] + t1);
        assert(s2 =~= seq![s2[0]] + t2);
    }
}

/// Compares two records under a sort key (see `rec_cmp`).
pub fn compare_records(a: &AggregateRecord, b: &AggregateRecord, key: SortKey) -> (r: i8)
    ensures
        r as int == rec_cmp(*a, *b, key),
{
    match key {
        SortKey::Path => compare_paths(&a.path, &b.path),
        SortKey::Size => if a.total_size > b.total_size {
            -1
        } else if a.total_size < b.total_size {
            1
        } else {
            compare_paths(&a.path, &b.path)
        },
        SortKey::Count => if a.file_count > b.file_count {
            -1
        } else if a.file_count < b.file_count {
            1
        } else {
            compare_paths(&a.path, &b.path)
        },
    }
}

/// Puts records in the order of `key`, ties broken by path.
pub fn sort_records(recs: Vec<AggregateRecord>, key: SortKey) -> (r: Vec<AggregateRecord>)
    ensures
        r@.to_multiset() == recs@.to_multiset(),
        sorted_by(r@, key),
{
    broadcast use vstd::seq_lib::group_to_multiset_ensures;
    let mut rest = recs;
    let mut out: Vec<AggregateRecord> = Vec::new();
    while rest.len() > 0
        invariant
            out@.to_multiset().add(rest@.to_multiset()) == recs@.to_multiset(),
            sorted_by(out@, key),
            forall|i: int, j: int|
                0 <= i < out@.len() && 0 <= j < rest@.len() ==> rec_cmp(#[trigger] out@[i], #[trigger] rest@[j], key) <= 0,
        decreases rest.len(),
    {
        let mut mi: usize = 0;
        let mut j: usize = 1;
        proof {
            lemma_rec_cmp_total_order(rest@[0], rest@[0], rest@[0], key);
        }
        while j < rest.len()
            invariant
                0 <= mi < j <= rest.len(),
                forall|k: int| 0 <= k < j ==> rec_cmp(rest@[mi as int], #[trigger] rest@[k], key) <= 0,
            decreases rest.len() - j,
        {
            proof {
                lemma_rec_cmp_total_order(rest@[j as int], rest@[mi as int], rest@[mi as int], key);
            }
            if compare_records(&rest[j], &rest[mi], key) < 0 {
                proof {
                    assert forall|k: int| 0 <= k < j + 1 implies rec_cmp(rest@[j as int], #[trigger] rest@[k], key) <= 0 by {
                        lemma_rec_cmp_total_order(rest@[j as int], rest@[mi as int], rest@[k], key);
                        lemma_rec_cmp_total_order(rest@[j as int], rest@[j as int], rest@[j as int], key);
                        lemma_path_cmp_eq(rec_key(rest@[j as int]), rec_key(rest@[j as int]));
                    }
                }
                mi = j;
            }
            j = j + 1;
        }
        let ghost rest0 = rest@;
        let ghost out0 = out@;
        let m = rest.remove(mi);
        proof {
            rest0.to_multiset_ensures();
            assert(rest@ == rest0.remove(mi as int));
            assert(rest0.remove(mi as int).to_multiset() == rest0.to_multiset().remove(rest0[mi as int]));
        }
        out.push(m);
        proof {
            out0.to_multiset_ensures();
            assert(out@ == out0.push(m));
            assert(out@.to_multiset() == out0.to_multiset().insert(m));
            assert(out@.to_multiset().add(rest@.to_multiset()) =~= out0.to_multiset().add(rest0.to_multiset()));
            assert forall|i: int, k: int| 0 <= i < out@.len() && 0 <= k < rest@.len() implies rec_cmp(#[trigger] out@[i], #[trigger] rest@[k], key) <= 0 by {
                if k < mi {
                    assert(rest@[k] == rest0[k]);
                } else {
                    assert(rest@[k] == rest0[k + 1]);
                }
                if i == out0.len() {
                    assert(out@[i] == rest0[mi as int]);
                } else {
                    assert(out@[i] == out0[i]);
                }
            }
            assert forall|i: int, k: int| 0 <= i < k < out@.len() implies rec_cmp(#[trigger] out@[i], #[trigger] out@[k], key) <= 0 by {
                assert(out@[i] == out0[i]);
                if k < out0.len() {
                    assert(out@[k] == out0[k]);
                } else {
                    assert(out@[k] == rest0[mi as int]);
                }
            }
        }
    }
    assert(rest@.to_multiset() =~= vstd::multiset::Multiset::empty());
    assert(out@.to_multiset() =~= out@.to_multiset().add(rest@.to_multiset()));
    out
}

/// Whether `r` is the record of the single file `f`: keyed by the file's
/// path, counting one file of the file's size.
pub open spec fn file_record(f: FileEntry, r: AggregateRecord) -> bool {
    rec_key(r) == path_of(&f.path) && r.file_count == 1 && r.total_size == f.size
}

/// One record per file, in the same order, keyed by the file's path.
pub fn file_records(files: &Vec<FileEntry>) -> (r: Vec<AggregateRecord>)
    ensures
        r@.len() == files@.len(),
        forall|i: int| 0 <= i < r@.len() ==> file_record(files@[i], #[trigger] r@[i]),
{
    let mut r: Vec<AggregateRecord> = Vec::new();
    let mut i: usize = 0;
    while i < files.len()
        invariant
            i <= files.len(),
            r@.len() == i,
            forall|k: int| 0 <= k < i ==> file_record(files@[k], #[trigger] r@[k]),
        decreases files.len() - i,
    {
        let f = &files[i];
        r.push(AggregateRecord { path: copy_path(&f.path), file_count: 1, total_size: f.size });
        i = i + 1;
    }
    r
}

/// The first `limit` records in the order of `key`: the ordered records,
/// cut after `limit` of them.
pub fn top_records(recs: Vec<AggregateRecord>, key: SortKey, limit: usize) -> (r: Vec<AggregateRecord>)
    ensures
        exists|s: Seq<AggregateRecord>|
            s.to_multiset() == recs@.to_multiset() && sorted_by(s, key) && r@ == s.subrange(
                0,
                if limit < s.len() { limit as int } else { s.len() as int },
            ),
{
    broadcast use vstd::seq_lib::group_to_multiset_ensures;
    let mut s = sort_records(recs, key);
    let ghost full = s@;
    let n = s.len();
    s.truncate(limit);
    if limit >= n {
        assert(full.subrange(0, full.len() as int) =~= full);
    }
    s
}

/// The `limit` largest files, largest first, equal sizes by path; each as
/// the record of one file.
pub fn largest_files(files: &Vec<FileEntry>, limit: usize) -> (r: Vec<AggregateRecord>)
    ensures
        exists|recs: Seq<AggregateRecord>, s: Seq<AggregateRecord>|
            recs.len() == files@.len() && (forall|i: int| 0 <= i < recs.len() ==> file_record(files@[i], #[trigger] recs[i]))
                && s.to_multiset() == recs.to_multiset() && sorted_by(s, SortKey::Size) && r@ == s.subrange(
                0,
                if limit < s.len() { limit as int } else { s.len() as int },
            ),
{
    let recs = file_records(files);
    let ghost rv = recs@;
    let r = top_records(recs, SortKey::Size, limit);
    assert(rv.len() == files@.len() && forall|i: int| 0 <= i < rv.len() ==> file_record(files@[i], #[trigger] rv[i]));
    r
}

} // verus!
