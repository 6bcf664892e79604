//! What a complete walk finds. A directory tree is modelled by the listing
//! that reading each directory returns; a directory that cannot be read
//! lists nothing.
use vstd::prelude::*;
use crate::scan::{ScanConfig, DirEntryInfo, kept_files, new_dirs, keeps_file, descends,
    lemma_kept_files_members};

verus! {

/// The listing that reading directory `d` of `tree` returns.
pub open spec fn listing_of(tree: Map<Seq<Seq<u8>>, Seq<DirEntryInfo>>, d: Seq<Seq<u8>>) -> Seq<DirEntryInfo> {
    if tree.contains_key(d) {
        tree[d]
    } else {
        seq![]
    }
}

/// Whether directory `d` is reached from the root: each of its ancestors
/// lists the next one as a directory that is not excluded.
pub open spec fn reachable_dir(config: ScanConfig, tree: Map<Seq<Seq<u8>>, Seq<DirEntryInfo>>, d: Seq<Seq<u8>>) -> bool
    decreases d.len(),
{
    if d.len() == 0 {
        true
    } else {
        reachable_dir(config, tree, d.drop_last()) && exists|i: int|
            0 <= i < listing_of(tree, d.drop_last()).len() && descends(
                config,
                #[trigger] listing_of(tree, d.drop_last())[i],
            ) && listing_of(tree, d.drop_last())[i].name@ == d.last()
    }
}

/// Whether `x` (path and size) is a file that a walk should keep: it is
/// listed, and passes the filters, in a reachable directory.
pub open spec fn reachable_file(
    config: ScanConfig,
    tree: Map<Seq<Seq<u8>>, Seq<DirEntryInfo>>,
    x: (Seq<Seq<u8>>, u64),
) -> bool {
    x.0.len() > 0 && reachable_dir(config, tree, x.0.drop_last()) && exists|i: int|
        0 <= i < listing_of(tree, x.0.drop_last()).len() && keeps_file(
            config,
            #[trigger] listing_of(tree, x.0.drop_last())[i],
        ) && x == (x.0.drop_last().push(listing_of(tree, x.0.drop_last())[i].name@), listing_of(
            tree,
            x.0.drop_last(),
        )[i].size)
}

/// The files kept by reading the directories of `trace` in that order.
pub open spec fn trace_found(config: ScanConfig, tree: Map<Seq<Seq<u8>>, Seq<DirEntryInfo>>, trace: Seq<Seq<Seq<u8>>>) -> Seq<
    (Seq<Seq<u8>>, u64),
>
    decreases trace.len(),
{
    if trace.len() == 0 {
        seq![]
    } else {
        trace_found(config, tree, trace.drop_last()) + kept_files(config, trace.last(), listing_of(tree, trace.last()))
    }
}

/// The directories ever put on the pending stack: the root, then those that
/// reading the directories of `trace` added.
pub open spec fn trace_pushed(config: ScanConfig, tree: Map<Seq<Seq<u8>>, Seq<DirEntryInfo>>, trace: Seq<Seq<Seq<u8>>>) -> Seq<
    Seq<Seq<u8>>,
>
    decreases trace.len(),
{
    if trace.len() == 0 {
        seq![Seq::<Seq<u8>>::empty()]
    } else {
        trace_pushed(config, tree, trace.drop_last()) + new_dirs(config, trace.last(), listing_of(tree, trace.last()))
    }
}

proof fn lemma_trace_found_members(
    config: ScanConfig,
    tree: Map<Seq<Seq<u8>>, Seq<DirEntryInfo>>,
    trace: Seq<Seq<Seq<u8>>>,
    x: (Seq<Seq<u8>>, u64),
)
    ensures
        trace_found(config, tree, trace).contains(x) <==> exists|j: int|
            0 <= j < trace.len() && kept_files(config, #[trigger] trace[j], listing_of(tree, trace[j])).contains(x),
    decreases trace.len(),
{
    if trace.len() > 0 {
        let pre = trace.drop_last();
        lemma_trace_found_members(config, tree, pre, x);
        let a = trace_found(config, tree, pre);
        let b = kept_files(config, trace.last(), listing_of(tree, trace.last()));
        let ab = a + b;
        if ab.contains(x) {
            let m = choose|m: int| 0 <= m < ab.len() && ab[m] == x;
            if m < a.len() {
                assert(a[m] == x);
                let j = choose|j: int|
                    0 <= j < pre.len() && kept_files(config, #[trigger] pre[j], listing_of(tree, pre[j])).contains(x);
                assert(trace[j] == pre[j]);
            } else {
                assert(b[m - a.len()] == x);
                assert(trace[trace.len() - 1] == trace.last());
            }
        }
        if exists|j: int|
            0 <= j < trace.len() && kept_files(config, #[trigger] trace[j], listing_of(tree, trace[j])).contains(x) {
            let j = choose|j: int|
                0 <= j < trace.len() && kept_files(config, #[trigger] trace[j], listing_of(tree, trace[j])).contains(x);
            if j < trace.len() - 1 {
                assert(pre[j] == trace[j]);
                let m = choose|m: int| 0 <= m < a.len() && a[m] == x;
                assert(ab[m] == x);
            } else {
                let m = choose|m: int| 0 <= m < b.len() && b[m] == x;
                assert(ab[a.len() + m] == x);
            }
        }
    }
}

proof fn lemma_new_dirs_members(config: ScanConfig, dir: Seq<Seq<u8>>, listing: Seq<DirEntryInfo>, d: Seq<Seq<u8>>)
    ensures
        new_dirs(config, dir, listing).contains(d) <==> exists|i: int|
            0 <= i < listing.len() && descends(config, #[trigger] listing[i]) && d == dir.push(listing[i].name@),
    decreases listing.len(),
{
    if listing.len() > 0 {
        let pre = listing.drop_last();
        lemma_new_dirs_members(config, dir, pre, d);
        let k = new_dirs(config, dir, listing);
        let kp = new_dirs(config, dir, pre);
        if k.contains(d) {
            if kp.contains(d) {
                let i = choose|i: int| 0 <= i < pre.len() && descends(config, #[trigger] pre[i]) && d == dir.push(pre[i].name@);
                assert(listing[i] == pre[i]);
            } else {
                let j = choose|j: int| 0 <= j < k.len() && k[j] == d;
                assert(j == kp.len());
                assert(listing[listing.len() - 1] == listing.last());
            }
        }
        if exists|i: int| 0 <= i < listing.len() && descends(config, #[trigger] listing[i]) && d == dir.push(listing[i].name@) {
            let i = choose|i: int| 0 <= i < listing.len() && descends(config, #[trigger] listing[i]) && d == dir.push(listing[i].name@);
            if i < listing.len() - 1 {
                assert(pre[i] == listing[i]);
                let j = choose|j: int| 0 <= j < kp.len() && kp[j] == d;
                assert(k[j] == d);
            } else {
                assert(k[k.len() - 1] == d);
            }
        }
    }
}

proof fn lemma_trace_pushed_members(
    config: ScanConfig,
    tree: Map<Seq<Seq<u8>>, Seq<DirEntryInfo>>,
    trace: Seq<Seq<Seq<u8>>>,
    d: Seq<Seq<u8>>,
)
    ensures
        trace_pushed(config, tree, trace).contains(d) <==> (d.len() == 0 || exists|j: int|
            0 <= j < trace.len() && new_dirs(config, #[trigger] trace[j], listing_of(tree, trace[j])).contains(d)),
    decreases trace.len(),
{
    if trace.len() == 0 {
        let s = seq![Seq::<Seq<u8>>::empty()];
        if d.len() == 0 {
            assert(d =~= Seq::<Seq<u8>>::empty());
            assert(s[0] == d);
        }
    } else {
        let pre = trace.drop_last();
        lemma_trace_pushed_members(config, tree, pre, d);
        let a = trace_pushed(config, tree, pre);
        let b = new_dirs(config, trace.last(), listing_of(tree, trace.last()));
        let ab = a + b;
        if ab.contains(d) {
            let m = choose|m: int| 0 <= m < ab.len() && ab[m] == d;
            if m < a.len() {
                assert(a[m] == d);
                if d.len() != 0 {
                    let j = choose|j: int|
                        0 <= j < pre.len() && new_dirs(config, #[trigger] pre[j], listing_of(tree, pre[j])).contains(d);
                    assert(trace[j] == pre[j]);
                }
            } else {
                assert(b[m - a.len()] == d);
                assert(trace[trace.len() - 1] == trace.last());
            }
        }
        if d.len() == 0 {
            let m = choose|m: int| 0 <= m < a.len() && a[m] == d;
            assert(ab[m] == d);
        } else if exists|j: int|
            0 <= j < trace.len() && new_dirs(config, #[trigger] trace[j], listing_of(tree, trace[j])).contains(d) {
            let j = choose|j: int|
                0 <= j < trace.len() && new_dirs(config, #[trigger] trace[j], listing_of(tree, trace[j])).contains(d);
            if j < trace.len() - 1 {
                assert(pre[j] == trace[j]);
                let m = choose|m: int| 0 <= m < a.len() && a[m] == d;
                assert(ab[m] == d);
            } else {
                let m = choose|m: int| 0 <= m < b.len() && b[m] == d;
                assert(ab[a.len() + m] == d);
            }
        }
    }
}

/// Whether every directory put on the pending stack was read, and only
/// those: the walk ran until nothing was pending.
pub open spec fn complete(config: ScanConfig, tree: Map<Seq<Seq<u8>>, Seq<DirEntryInfo>>, trace: Seq<Seq<Seq<u8>>>) -> bool {
    forall|d: Seq<Seq<u8>>| #[trigger] trace.contains(d) <==> trace_pushed(config, tree, trace).contains(d)
}

proof fn lemma_read_dirs_reachable(
    config: ScanConfig,
    tree: Map<Seq<Seq<u8>>, Seq<DirEntryInfo>>,
    trace: Seq<Seq<Seq<u8>>>,
    d: Seq<Seq<u8>>,
)
    requires
        complete(config, tree, trace),
        trace.contains(d),
    ensures
        reachable_dir(config, tree, d),
    decreases d.len(),
{
    lemma_trace_pushed_members(config, tree, trace, d);
    if d.len() > 0 {
        let j = choose|j: int|
            0 <= j < trace.len() && new_dirs(config, #[trigger] trace[j], listing_of(tree, trace[j])).contains(d);
        let p = trace[j];
        let l = listing_of(tree, p);
        lemma_new_dirs_members(config, p, l, d);
        let i = choose|i: int| 0 <= i < l.len() && descends(config, #[trigger] l[i]) && d == p.push(l[i].name@);
        assert(d.drop_last() =~= p);
        assert(trace.contains(p));
        lemma_read_dirs_reachable(config, tree, trace, p);
        assert(l[i].name@ == d.last());
    }
}

proof fn lemma_reachable_dirs_read(
    config: ScanConfig,
    tree: Map<Seq<Seq<u8>>, Seq<DirEntryInfo>>,
    trace: Seq<Seq<Seq<u8>>>,
    d: Seq<Seq<u8>>,
)
    requires
        complete(config, tree, trace),
        reachable_dir(config, tree, d),
    ensures
        trace.contains(d),
    decreases d.len(),
{
    lemma_trace_pushed_members(config, tree, trace, d);
    if d.len() > 0 {
        let p = d.drop_last();
        lemma_reachable_dirs_read(config, tree, trace, p);
        let j = choose|j: int| 0 <= j < trace.len() && trace[j] == p;
        let l = listing_of(tree, p);
        let i = choose|i: int| 0 <= i < l.len() && descends(config, #[trigger] l[i]) && l[i].name@ == d.last();
        assert(d =~= p.push(l[i].name@));
        lemma_new_dirs_members(config, p, l, d);
        assert(new_dirs(config, trace[j], listing_of(tree, trace[j])).contains(d));
    }
}

/// The scanner's bookkeeping, step by step: when the directories pending
/// and those read together are the directories ever pushed, taking the last
/// pending directory and reading it (as `Scanner::next_dir` and
/// `Scanner::visit` do) keeps them so, and the files kept grow by that
/// directory's kept files.
pub proof fn lemma_scanner_step(
    config: ScanConfig,
    tree: Map<Seq<Seq<u8>>, Seq<DirEntryInfo>>,
    trace: Seq<Seq<Seq<u8>>>,
    pending: Seq<Seq<Seq<u8>>>,
)
    requires
        pending.len() > 0,
        pending.to_multiset().add(trace.to_multiset()) == trace_pushed(config, tree, trace).to_multiset(),
    ensures
        ({
            let d = pending.last();
            let next = pending.drop_last() + new_dirs(config, d, listing_of(tree, d));
            &&& next.to_multiset().add(trace.push(d).to_multiset()) == trace_pushed(
                config,
                tree,
                trace.push(d),
            ).to_multiset()
            &&& trace_found(config, tree, trace.push(d)) == trace_found(config, tree, trace) + kept_files(
                config,
                d,
                listing_of(tree, d),
            )
        }),
{
    broadcast use vstd::seq_lib::group_to_multiset_ensures;
    let d = pending.last();
    let n = new_dirs(config, d, listing_of(tree, d));
    let t2 = trace.push(d);
    assert(t2.drop_last() =~= trace);
    vstd::seq_lib::lemma_multiset_commutative(pending.drop_last(), n);
    vstd::seq_lib::lemma_multiset_commutative(trace_pushed(config, tree, trace), n);
    assert(pending.drop_last().push(d) =~= pending);
    assert(pending.to_multiset() =~= pending.drop_last().to_multiset().insert(d));
    assert((pending.drop_last() + n).to_multiset().add(t2.to_multiset()) =~= trace_pushed(
        config,
        tree,
        t2,
    ).to_multiset());
}

/// A new walk (only the root pending, nothing read) starts with its
/// bookkeeping balanced.
pub proof fn lemma_walk_start(config: ScanConfig, tree: Map<Seq<Seq<u8>>, Seq<DirEntryInfo>>)
    ensures
        seq![Seq::<Seq<u8>>::empty()].to_multiset().add(Seq::<Seq<Seq<u8>>>::empty().to_multiset())
            == trace_pushed(config, tree, Seq::<Seq<Seq<u8>>>::empty()).to_multiset(),
{
    broadcast use vstd::seq_lib::group_to_multiset_ensures;
    assert(Seq::<Seq<Seq<u8>>>::empty().to_multiset() =~= vstd::multiset::Multiset::empty());
    assert(seq![Seq::<Seq<u8>>::empty()].to_multiset().add(vstd::multiset::Multiset::empty())
        =~= seq![Seq::<Seq<u8>>::empty()].to_multiset());
}

/// A walk whose pending stack is empty is complete.
pub proof fn lemma_nothing_pending_complete(
    config: ScanConfig,
    tree: Map<Seq<Seq<u8>>, Seq<DirEntryInfo>>,
    trace: Seq<Seq<Seq<u8>>>,
    pending: Seq<Seq<Seq<u8>>>,
)
    requires
        pending.len() == 0,
        pending.to_multiset().add(trace.to_multiset()) == trace_pushed(config, tree, trace).to_multiset(),
    ensures
        complete(config, tree, trace),
{
    broadcast use vstd::seq_lib::group_to_multiset_ensures;
    assert(pending.to_multiset() =~= vstd::multiset::Multiset::empty());
    assert(trace.to_multiset() =~= trace_pushed(config, tree, trace).to_multiset());
    assert forall|d: Seq<Seq<u8>>| #[trigger] trace.contains(d) <==> trace_pushed(config, tree, trace).contains(d) by {
        assert(trace.contains(d) <==> trace.to_multiset().count(d) > 0);
        assert(trace_pushed(config, tree, trace).contains(d) <==> trace_pushed(config, tree, trace).to_multiset().count(d) > 0);
    }
}

/// A complete walk keeps exactly the reachable files: those listed, with a
/// name that passes the extension filter, in a directory reached from the
/// root without passing through an excluded directory. Which directories are
/// read first does not matter.
pub proof fn lemma_walk_finds_reachable_files(
    config: ScanConfig,
    tree: Map<Seq<Seq<u8>>, Seq<DirEntryInfo>>,
    trace: Seq<Seq<Seq<u8>>>,
    x: (Seq<Seq<u8>>, u64),
)
    requires
        complete(config, tree, trace),
    ensures
        trace_found(config, tree, trace).contains(x) <==> reachable_file(config, tree, x),
{
    lemma_trace_found_members(config, tree, trace, x);
    if trace_found(config, tree, trace).contains(x) {
        let j = choose|j: int|
            0 <= j < trace.len() && kept_files(config, #[trigger] trace[j], listing_of(tree, trace[j])).contains(x);
        let p = trace[j];
        let l = listing_of(tree, p);
        lemma_kept_files_members(config, p, l, x);
        let i = choose|i: int| 0 <= i < l.len() && keeps_file(config, #[trigger] l[i]) && x == (p.push(l[i].name@), l[i].size);
        assert(x.0.drop_last() =~= p);
        assert(trace.contains(p));
        lemma_read_dirs_reachable(config, tree, trace, p);
    }
    if reachable_file(config, tree, x) {
        let p = x.0.drop_last();
        let l = listing_of(tree, p);
        lemma_reachable_dirs_read(config, tree, trace, p);
        let j = choose|j: int| 0 <= j < trace.len() && trace[j] == p;
        lemma_kept_files_members(config, p, l, x);
        assert(kept_files(config, trace[j], listing_of(tree, trace[j])).contains(x));
    }
}

} // verus!
