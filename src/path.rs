//! Byte-string names and relative paths, with their lexicographic order.
//!
//! A relative path is the sequence of its component names, each a byte
//! string; the root directory itself is the empty path.
use vstd::prelude::*;

verus! {

/// Three-way lexicographic comparison of byte strings: -1, 0 or 1.
pub open spec fn bytes_cmp(a: Seq<u8>, b: Seq<u8>) -> int
    decreases a.len(),
{
    if a.len() == 0 {
        if b.len() == 0 { 0 } else { -1 }
    } else if b.len() == 0 {
        1
    } else if a[0] < b[0] {
        -1
    } else if a[0] > b[0] {
        1
    } else {
        bytes_cmp(a.drop_first(), b.drop_first())
    }
}

/// Three-way lexicographic comparison of paths, component by component.
pub open spec fn path_cmp(a: Seq<Seq<u8>>, b: Seq<Seq<u8>>) -> int
    decreases a.len(),
{
    if a.len() == 0 {
        if b.len() == 0 { 0 } else { -1 }
    } else if b.len() == 0 {
        1
    } else if bytes_cmp(a[0], b[0]) != 0 {
        bytes_cmp(a[0], b[0])
    } else {
        path_cmp(a.drop_first(), b.drop_first())
    }
}

pub proof fn lemma_bytes_cmp_range(a: Seq<u8>, b: Seq<u8>)
    ensures
        -1 <= bytes_cmp(a, b) <= 1,
    decreases a.len(),
{
    if a.len() > 0 && b.len() > 0 && a[0] == b[0] {
        lemma_bytes_cmp_range(a.drop_first(), b.drop_first());
    }
}

/// Swapping the arguments negates the comparison.
pub proof fn lemma_bytes_cmp_antisym(a: Seq<u8>, b: Seq<u8>)
    ensures
        bytes_cmp(a, b) == -bytes_cmp(b, a),
    decreases a.len(),
{
    if a.len() > 0 && b.len() > 0 && a[0] == b[0] {
        lemma_bytes_cmp_antisym(a.drop_first(), b.drop_first());
    }
}

/// Two byte strings compare equal exactly when they are the same.
pub proof fn lemma_bytes_cmp_eq(a: Seq<u8>, b: Seq<u8>)
    ensures
        (bytes_cmp(a, b) == 0) == (a == b),
    decreases a.len(),
{
    if a.len() == 0 && b.len() == 0 {
        assert(a =~= b);
    }
    if a.len() > 0 && b.len() > 0 && a[0] == b[0] {
        lemma_bytes_cmp_eq(a.drop_first(), b.drop_first());
        if a.drop_first() == b.drop_first() {
            assert(a =~= seq![a[0]] + a.drop_first());
            assert(b =~= seq![b[0]] + b.drop_first());
        }
        if a == b {
            assert(a.drop_first() =~= b.drop_first());
        }
    }
}

pub proof fn lemma_bytes_cmp_trans(a: Seq<u8>, b: Seq<u8>, c: Seq<u8>)
    requires
        bytes_cmp(a, b) <= 0,
        bytes_cmp(b, c) <= 0,
    ensures
        bytes_cmp(a, c) <= 0,
    decreases a.len(),
{
    if a.len() > 0 && b.len() > 0 && c.len() > 0 && a[0] == b[0] && b[0] == c[0] {
        lemma_bytes_cmp_trans(a.drop_first(), b.drop_first(), c.drop_first());
    }
}

pub proof fn lemma_path_cmp_range(a: Seq<Seq<u8>>, b: Seq<Seq<u8>>)
    ensures
        -1 <= path_cmp(a, b) <= 1,
    decreases a.len(),
{
    if a.len() > 0 && b.len() > 0 {
        lemma_bytes_cmp_range(a[0], b[0]);
        lemma_path_cmp_range(a.drop_first(), b.drop_first());
    }
}

/// Swapping the arguments negates the comparison.
pub proof fn lemma_path_cmp_antisym(a: Seq<Seq<u8>>, b: Seq<Seq<u8>>)
    ensures
        path_cmp(a, b) == -path_cmp(b, a),
    decreases a.len(),
{
    if a.len() > 0 && b.len() > 0 {
        lemma_bytes_cmp_antisym(a[0], b[0]);
        lemma_path_cmp_antisym(a.drop_first(), b.drop_first());
    }
}

/// Two paths compare equal exactly when they are the same.
pub proof fn lemma_path_cmp_eq(a: Seq<Seq<u8>>, b: Seq<Seq<u8>>)
    ensures
        (path_cmp(a, b) == 0) == (a == b),
    decreases a.len(),
{
    if a.len() == 0 && b.len() == 0 {
        assert(a =~= b);
    }
    if a.len() > 0 && b.len() > 0 {
        lemma_bytes_cmp_eq(a[0], b[0]);
        lemma_path_cmp_eq(a.drop_first(), b.drop_first());
        if a[0] == b[0] && a.drop_first() == b.drop_first() {
            assert(a =~= seq![a[0]] + a.drop_first());
            assert(b =~= seq![b[0]] + b.drop_first());
        }
        if a == b {
            assert(a.drop_first() =~= b.drop_first());
        }
    }
}

pub proof fn lemma_path_cmp_trans(a: Seq<Seq<u8>>, b: Seq<Seq<u8>>, c: Seq<Seq<u8>>)
    requires
        path_cmp(a, b) <= 0,
        path_cmp(b, c) <= 0,
    ensures
        path_cmp(a, c) <= 0,
    decreases a.len(),
{
    if a.len() > 0 && b.len() > 0 && c.len() > 0 {
        lemma_bytes_cmp_range(a[0], b[0]);
        lemma_bytes_cmp_range(b[0], c[0]);
        lemma_bytes_cmp_range(a[0], c[0]);
        lemma_bytes_cmp_eq(a[0], b[0]);
        lemma_bytes_cmp_eq(b[0], c[0]);
        lemma_bytes_cmp_eq(a[0], c[0]);
        lemma_bytes_cmp_antisym(a[0], c[0]);
        if bytes_cmp(a[0], b[0]) <= 0 && bytes_cmp(b[0], c[0]) <= 0 {
            lemma_bytes_cmp_trans(a[0], b[0], c[0]);
        }
        if bytes_cmp(a[0], b[0]) == 0 && bytes_cmp(b[0], c[0]) == 0 {
            lemma_path_cmp_trans(a.drop_first(), b.drop_first(), c.drop_first());
        }
        if bytes_cmp(a[0], c[0]) == 0 && bytes_cmp(a[0], b[0]) < 0 {
            // a[0] == c[0], so b[0] sits both above and below it
            lemma_bytes_cmp_antisym(b[0], c[0]);
        }
    }
}

/// The model of a relative path: its component names as byte strings.
pub open spec fn path_of(p: &Vec<Vec<u8>>) -> Seq<Seq<u8>> {
    p@.map_values(|c: Vec<u8>| c@)
}

/// Compares two byte strings lexicographically.
pub fn compare_bytes(a: &Vec<u8>, b: &Vec<u8>) -> (r: i8)
    ensures
        r as int == bytes_cmp(a@, b@),
{
    let mut i: usize = 0;
    assert(a@.subrange(0, a@.len() as int) =~= a@);
    assert(b@.subrange(0, b@.len() as int) =~= b@);
    while i < a.len() && i < b.len()
        invariant
            i <= a.len(),
            i <= b.len(),
            a@.subrange(0, i as int) == b@.subrange(0, i as int),
            bytes_cmp(a@, b@) == bytes_cmp(a@.subrange(i as int, a@.len() as int), b@.subrange(i as int, b@.len() as int)),
        decreases a.len() - i,
    {
        let x = a[i];
        let y = b[i];
        let ghost sa = a@.subrange(i as int, a@.len() as int);
        let ghost sb = b@.subrange(i as int, b@.len() as int);
        assert(sa.drop_first() =~= a@.subrange(i + 1, a@.len() as int));
        assert(sb.drop_first() =~= b@.subrange(i + 1, b@.len() as int));
        if x < y {
            return -1;
        } else if x > y {
            return 1;
        }
        assert(a@.subrange(0, i + 1) =~= a@.subrange(0, i as int).push(x));
        assert(b@.subrange(0, i + 1) =~= b@.subrange(0, i as int).push(y));
        i = i + 1;
    }
    if i < a.len() {
        1
    } else if i < b.len() {
        -1
    } else {
        0
    }
}

/// Compares two relative paths lexicographically, component by component.
pub fn compare_paths(a: &Vec<Vec<u8>>, b: &Vec<Vec<u8>>) -> (r: i8)
    ensures
        r as int == path_cmp(path_of(a), path_of(b)),
{
    let ghost da = path_of(a);
    let ghost db = path_of(b);
    let mut i: usize = 0;
    assert(da.subrange(0, da.len() as int) =~= da);
    assert(db.subrange(0, db.len() as int) =~= db);
    while i < a.len() && i < b.len()
        invariant
            i <= a.len(),
            i <= b.len(),
            da.len() == a.len(),
            db.len() == b.len(),
            da == path_of(a),
            db == path_of(b),
            path_cmp(da, db) == path_cmp(da.subrange(i as int, da.len() as int), db.subrange(i as int, db.len() as int)),
        decreases a.len() - i,
    {
        let c = compare_bytes(&a[i], &b[i]);
        let ghost sa = da.subrange(i as int, da.len() as int);
        let ghost sb = db.subrange(i as int, db.len() as int);
        assert(sa.drop_first() =~= da.subrange(i + 1, da.len() as int));
        assert(sb.drop_first() =~= db.subrange(i + 1, db.len() as int));
        assert(sa[0] == a[i as int]@);
        assert(sb[0] == b[i as int]@);
        if c != 0 {
            return c;
        }
        i = i + 1;
    }
    if i < a.len() {
        1
    } else if i < b.len() {
        -1
    } else {
        0
    }
}

/// A copy of a relative path, one component after another.
pub fn copy_path(p: &Vec<Vec<u8>>) -> (r: Vec<Vec<u8>>)
    ensures
        path_of(&r) == path_of(p),
{
    let mut r: Vec<Vec<u8>> = Vec::new();
    let mut i: usize = 0;
    while i < p.len()
        invariant
            i <= p.len(),
            r@.len() == i,
            forall|j: int| 0 <= j < i ==> r@[j]@ == p@[j]@,
        decreases p.len() - i,
    {
        r.push(p[i].clone());
        i = i + 1;
    }
    assert(path_of(&r) =~= path_of(p));
    r
}

/// The path of entry `name` inside directory `dir`.
pub fn child_path(dir: &Vec<Vec<u8>>, name: &Vec<u8>) -> (r: Vec<Vec<u8>>)
    ensures
        path_of(&r) == path_of(dir).push(name@),
{
    let mut r = copy_path(dir);
    r.push(name.clone());
    assert(path_of(&r) =~= path_of(dir).push(name@));
    r
}

/// The text of a relative path: its components joined by `/`.
pub open spec fn joined(p: Seq<Seq<u8>>) -> Seq<u8>
    decreases p.len(),
{
    if p.len() == 0 {
        seq![]
    } else if p.len() == 1 {
        p[0]
    } else {
        joined(p.drop_last()) + seq![47u8] + p.last()
    }
}

/// The text of a relative path, components joined by `/`.
pub fn path_text(p: &Vec<Vec<u8>>) -> (r: Vec<u8>)
    ensures
        r@ == joined(path_of(p)),
{
    let mut r: Vec<u8> = Vec::new();
    let mut i: usize = 0;
    while i < p.len()
        invariant
            i <= p.len(),
            r@ == joined(path_of(p).subrange(0, i as int)),
        decreases p.len() - i,
    {
        let ghost pre = path_of(p).subrange(0, i as int);
        let ghost post = path_of(p).subrange(0, i + 1);
        assert(post.drop_last() =~= pre);
        assert(post.last() == p@[i as int]@);
        if i > 0 {
            r.push(47u8);
        }
        let c = &p[i];
        let mut k: usize = 0;
        let ghost start = r@;
        while k < c.len()
            invariant
                k <= c.len(),
                r@ == start + c@.subrange(0, k as int),
            decreases c.len() - k,
        {
            r.push(c[k]);
            assert(c@.subrange(0, k + 1) =~= c@.subrange(0, k as int).push(c@[k as int]));
            assert(r@ =~= start + c@.subrange(0, k + 1));
            k = k + 1;
        }
        assert(c@.subrange(0, c@.len() as int) =~= c@);
        if i == 0 {
            assert(r@ =~= post[0]);
        } else {
            assert(r@ =~= joined(pre) + seq![47u8] + post.last());
        }
        i = i + 1;
    }
    assert(path_of(p).subrange(0, p@.len() as int) =~= path_of(p));
    r
}

/// Whether two byte strings are the same.
pub fn bytes_equal(a: &Vec<u8>, b: &Vec<u8>) -> (r: bool)
    ensures
        r == (a@ == b@),
{
    proof {
        lemma_bytes_cmp_eq(a@, b@);
    }
    compare_bytes(a, b) == 0
}

/// Whether two relative paths are the same.
pub fn paths_equal(a: &Vec<Vec<u8>>, b: &Vec<Vec<u8>>) -> (r: bool)
    ensures
        r == (path_of(a) == path_of(b)),
{
    proof {
        lemma_path_cmp_eq(path_of(a), path_of(b));
    }
    compare_paths(a, b) == 0
}

} // verus!
