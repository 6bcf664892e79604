//! The hierarchical listing: kept files grouped under the directory that
//! directly holds them, directories and files each in path order.
use vstd::prelude::*;
use crate::path::{path_of, path_cmp, paths_equal, copy_path, lemma_path_cmp_eq, lemma_path_cmp_trans,
    lemma_path_cmp_antisym};
use crate::aggregate::{AggregateRecord, rec_key, parent_of, aggregate_by_directory, aggregates,
    total_of, parent_path, lemma_count_has_file};
use crate::report::{SortKey, sorted_by, file_record, file_records, sort_records, rec_cmp};
use crate::scan::FileEntry;

verus! {

/// A directory and the files directly inside it.
pub struct TreeGroup {
    pub dir: Vec<Vec<u8>>,
    pub files: Vec<Vec<Vec<u8>>>,
}

/// The models of a list of paths.
pub open spec fn paths_model(ps: Seq<Vec<Vec<u8>>>) -> Seq<Seq<Seq<u8>>> {
    ps.map_values(|p: Vec<Vec<u8>>| path_of(&p))
}

/// The keys of the records of `s` that lie directly in `dir`, in order.
pub open spec fn under(s: Seq<AggregateRecord>, dir: Seq<Seq<u8>>) -> Seq<Seq<Seq<u8>>>
    decreases s.len(),
{
    if s.len() == 0 {
        seq![]
    } else {
        let r = under(s.drop_last(), dir);
        if parent_of(rec_key(s.last())) == dir {
            r.push(rec_key(s.last()))
        } else {
            r
        }
    }
}

/// `groups` lists the files of `all`, ordered by path, under their
/// directories: directories in strictly ascending order, each holding the
/// files of `all` directly inside it, in the order of `all`.
pub open spec fn grouped(all: Seq<AggregateRecord>, groups: Seq<TreeGroup>) -> bool {
    &&& dirs_ascending(groups)
    &&& groups_hold(all, groups)
    &&& forall|k: int|
        0 <= k < all.len() ==> exists|g: int|
            0 <= g < groups.len() && path_of(&(#[trigger] groups[g]).dir) == parent_of(
                rec_key(#[trigger] all[k]),
            )
    &&& forall|g: int|
        0 <= g < groups.len() ==> exists|k: int|
            0 <= k < all.len() && path_of(&(#[trigger] groups[g]).dir) == parent_of(
                rec_key(#[trigger] all[k]),
            )
}

/// The paths of the records of `all` that lie directly in `dir`, in order.
fn files_under(all: &Vec<AggregateRecord>, dir: &Vec<Vec<u8>>) -> (r: Vec<Vec<Vec<u8>>>)
    ensures
        paths_model(r@) == under(all@, path_of(dir)),
{
    let mut r: Vec<Vec<Vec<u8>>> = Vec::new();
    let mut i: usize = 0;
    while i < all.len()
        invariant
            i <= all.len(),
            paths_model(r@) == under(all@.subrange(0, i as int), path_of(dir)),
        decreases all.len() - i,
    {
        let ghost pre = all@.subrange(0, i as int);
        let ghost post = all@.subrange(0, i + 1);
        assert(post.drop_last() =~= pre);
        assert(post.last() == all@[i as int]);
        let ghost r0 = r@;
        let p = parent_path(&all[i].path);
        if paths_equal(&p, dir) {
            let c = copy_path(&all[i].path);
            r.push(c);
            assert(paths_model(r@) =~= paths_model(r0).push(path_of(&c)));
        }
        i = i + 1;
    }
    assert(all@.subrange(0, all@.len() as int) =~= all@);
    r
}

/// Groups files under the directories that directly hold them, directories
/// in path order and the files of each in path order.
#[verifier::rlimit(40)]
pub fn file_tree(files: &Vec<FileEntry>) -> (r: Vec<TreeGroup>)
    ensures
        exists|recs: Seq<AggregateRecord>, all: Seq<AggregateRecord>|
            recs.len() == files@.len() && (forall|i: int|
                0 <= i < recs.len() ==> file_record(files@[i], #[trigger] recs[i]))
                && all.to_multiset() == recs.to_multiset() && sorted_by(all, SortKey::Path)
                && grouped(all, r@),
{
    let recs = file_records(files);
    let ghost rv = recs@;
    let all = sort_records(recs, SortKey::Path);
    let bare = bare_entries(&all);
    let drecs = aggregate_by_directory(&bare);
    let ghost dv = drecs@;
    let sdirs = sort_records(drecs, SortKey::Path);
    let groups = group_dirs(&all, &sdirs);
    proof {
        let (gw, kw) = choose|gw: Seq<int>, kw: Seq<int>| dirs_match(groups@, sdirs@, gw, kw);
        lemma_groups_complete(all@, bare@, dv, sdirs@, groups@, gw, kw);
        assert(rv.len() == files@.len() && forall|i: int| 0 <= i < rv.len() ==> file_record(files@[i], #[trigger] rv[i]));
    }
    groups
}

/// The paths of `all`, each as a file of no size.
fn bare_entries(all: &Vec<AggregateRecord>) -> (r: Vec<FileEntry>)
    ensures
        r@.len() == all@.len(),
        total_of(r@) == 0,
        forall|k: int| 0 <= k < r@.len() ==> path_of(&(#[trigger] r@[k]).path) == rec_key(all@[k]),
{
    let mut bare: Vec<FileEntry> = Vec::new();
    let mut i: usize = 0;
    while i < all.len()
        invariant
            i <= all.len(),
            bare@.len() == i,
            total_of(bare@) == 0,
            forall|k: int| 0 <= k < i ==> path_of(&(#[trigger] bare@[k]).path) == rec_key(all@[k]),
        decreases all.len() - i,
    {
        let ghost b0 = bare@;
        bare.push(FileEntry { path: copy_path(&all[i].path), size: 0 });
        assert(bare@.drop_last() =~= b0);
        i = i + 1;
    }
    bare
}

/// Whether `g` and `k` witness that the groups' directories are exactly the
/// keys of `sdirs`: `k` names a record for each group, `g` a group for each
/// record.
pub open spec fn dirs_match(groups: Seq<TreeGroup>, sdirs: Seq<AggregateRecord>, g: Seq<int>, k: Seq<int>) -> bool {
    &&& g.len() == sdirs.len()
    &&& k.len() == groups.len()
    &&& forall|i: int| 0 <= i < sdirs.len() ==> 0 <= #[trigger] g[i] < groups.len() && path_of(&groups[g[i]].dir) == rec_key(sdirs[i])
    &&& forall|i: int| 0 <= i < groups.len() ==> 0 <= #[trigger] k[i] < sdirs.len() && path_of(&groups[i].dir) == rec_key(sdirs[k[i]])
}

/// Whether the groups' directories are in strictly ascending path order.
pub open spec fn dirs_ascending(groups: Seq<TreeGroup>) -> bool {
    forall|i: int, j: int|
        0 <= i < j < groups.len() ==> path_cmp(
            path_of(&(#[trigger] groups[i]).dir),
            path_of(&(#[trigger] groups[j]).dir),
        ) < 0
}

/// Whether each group holds the files of `all` directly inside it.
pub open spec fn groups_hold(all: Seq<AggregateRecord>, groups: Seq<TreeGroup>) -> bool {
    forall|g: int|
        0 <= g < groups.len() ==> paths_model((#[trigger] groups[g]).files@) == under(
            all,
            path_of(&groups[g].dir),
        )
}

/// One group per distinct directory of `sdirs`, which is in path order;
/// each group holds the files of `all` directly inside its directory.
#[verifier::rlimit(40)]
fn group_dirs(all: &Vec<AggregateRecord>, sdirs: &Vec<AggregateRecord>) -> (groups: Vec<TreeGroup>)
    requires
        sorted_by(sdirs@, SortKey::Path),
    ensures
        dirs_ascending(groups@),
        groups_hold(all@, groups@),
        exists|g: Seq<int>, k: Seq<int>| dirs_match(groups@, sdirs@, g, k),
{
    let mut groups: Vec<TreeGroup> = Vec::new();
    let mut d: usize = 0;
    let ghost mut gw: Seq<int> = seq![];
    let ghost mut kw: Seq<int> = seq![];
    while d < sdirs.len()
        invariant
            d <= sdirs.len(),
            sorted_by(sdirs@, SortKey::Path),
            dirs_ascending(groups@),
            groups_hold(all@, groups@),
            dirs_match(groups@, sdirs@.subrange(0, d as int), gw, kw),
            (d == 0) == (groups@.len() == 0),
            d > 0 ==> path_of(&groups@.last().dir) == rec_key(sdirs@[d - 1]),
        decreases sdirs.len() - d,
    {
        let ghost g0 = groups@;
        let ghost pre = sdirs@.subrange(0, d as int);
        let ghost post = sdirs@.subrange(0, d + 1);
        assert(forall|i: int| 0 <= i < d ==> post[i] == pre[i]);
        let key = &sdirs[d].path;
        let skip = d > 0 && paths_equal(&groups[groups.len() - 1].dir, key);
        if !skip {
            let fs = files_under(&all, key);
            let grp = TreeGroup { dir: copy_path(key), files: fs };
            proof {
                if d > 0 {
                    let last = path_of(&g0.last().dir);
                    let kk = rec_key(sdirs@[d as int]);
                    assert(rec_cmp(sdirs@[d - 1], sdirs@[d as int], SortKey::Path) <= 0);
                    lemma_path_cmp_eq(last, kk);
                    assert forall|i: int| 0 <= i < g0.len() implies path_cmp(path_of(&(#[trigger] g0[i]).dir), kk) < 0 by {
                        let gi = path_of(&g0[i].dir);
                        if i < g0.len() - 1 {
                            assert(path_cmp(gi, last) < 0);
                            lemma_path_cmp_trans(gi, last, kk);
                            lemma_path_cmp_eq(gi, kk);
                            lemma_path_cmp_antisym(last, kk);
                            lemma_path_cmp_antisym(gi, last);
                        } else {
                            assert(g0[i] == g0.last());
                        }
                    }
                }
            }
            groups.push(grp);
            proof {
                gw = gw.push(g0.len() as int);
                kw = kw.push(d as int);
                assert(forall|i: int| 0 <= i < g0.len() ==> groups@[i] == g0[i]);
                assert(dirs_ascending(groups@));
                assert(groups_hold(all@, groups@));
                assert(dirs_match(groups@, post, gw, kw));
            }
        } else {
            proof {
                gw = gw.push(g0.len() - 1);
                assert(g0[g0.len() - 1] == g0.last());
                assert(dirs_match(groups@, post, gw, kw));
            }
        }
        d = d + 1;
    }
    assert(sdirs@.subrange(0, sdirs@.len() as int) =~= sdirs@);
    groups
}

proof fn lemma_groups_complete(
    all: Seq<AggregateRecord>,
    bare: Seq<FileEntry>,
    dv: Seq<AggregateRecord>,
    sdirs: Seq<AggregateRecord>,
    groups: Seq<TreeGroup>,
    gw: Seq<int>,
    kw: Seq<int>,
)
    requires
        bare.len() == all.len(),
        forall|k: int| 0 <= k < bare.len() ==> path_of(&(#[trigger] bare[k]).path) == rec_key(all[k]),
        aggregates(bare, dv),
        sdirs.to_multiset() == dv.to_multiset(),
        dirs_match(groups, sdirs, gw, kw),
    ensures
        forall|k: int|
            0 <= k < all.len() ==> exists|g: int|
                0 <= g < groups.len() && path_of(&(#[trigger] groups[g]).dir) == parent_of(
                    rec_key(#[trigger] all[k]),
                ),
        forall|g: int|
            0 <= g < groups.len() ==> exists|k: int|
                0 <= k < all.len() && path_of(&(#[trigger] groups[g]).dir) == parent_of(
                    rec_key(#[trigger] all[k]),
                ),
{
    broadcast use vstd::seq_lib::group_to_multiset_ensures;
    assert forall|k: int| 0 <= k < all.len() implies exists|g: int|
        0 <= g < groups.len() && path_of(&(#[trigger] groups[g]).dir) == parent_of(
            rec_key(#[trigger] all[k]),
        ) by {
        assert(path_of(&bare[k].path) == rec_key(all[k]));
        let i = choose|i: int| 0 <= i < dv.len() && rec_key(#[trigger] dv[i]) == parent_of(
            path_of(&(#[trigger] bare[k]).path));
        assert(dv.to_multiset().count(dv[i]) > 0);
        assert(sdirs.contains(dv[i]));
        let k2 = choose|k2: int| 0 <= k2 < sdirs.len() && sdirs[k2] == dv[i];
        let g = gw[k2];
        assert(path_of(&groups[g].dir) == rec_key(sdirs[k2]));
    }
    assert forall|g: int| 0 <= g < groups.len() implies exists|k: int|
        0 <= k < all.len() && path_of(&(#[trigger] groups[g]).dir) == parent_of(
            rec_key(#[trigger] all[k]),
        ) by {
        let k2 = kw[g];
        assert(sdirs.to_multiset().count(sdirs[k2]) > 0);
        assert(dv.contains(sdirs[k2]));
        let i = choose|i: int| 0 <= i < dv.len() && dv[i] == sdirs[k2];
        assert(dv[i].file_count > 0);
        lemma_count_has_file(bare, rec_key(dv[i]));
        let k = choose|k: int| 0 <= k < bare.len() && parent_of(path_of(&bare[k].path)) == rec_key(dv[i]);
        assert(path_of(&bare[k].path) == rec_key(all[k]));
    }
}

} // verus!
