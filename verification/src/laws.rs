//! The library's cross-cutting guarantees, each stated over the dependency
//! semantics and proved once and for all: the priority rule's arbitration,
//! isolated files standing as roots, shared dependencies deduplicated, uses
//! of externally-provided names contributing nothing, and rootless cycles
//! staying out of the output.

use vstd::prelude::*;
use vstd::set_lib::{lemma_int_range, lemma_len_subset, set_int_range};
use crate::record::{FileRecord, Namespace};
use crate::resolve::{def_of, dep_edge, pkg_edge, mod_edge, pkg_blocked, in_list, indices_distinct, lemma_def_of_none};
use crate::order::{dep_acyclic, dep_path, dep_reaches, is_root, ordered_by_deps};

verus! {

/// The priority rule: when file `a` defines a package that file `b` uses
/// (and that use resolves to `a`), while `a` uses a module that resolves to
/// `b`, only the package direction survives — `b` depends on `a`, and `a`
/// does not depend on `b`, so the pair cannot form a two-file cycle.
pub proof fn lemma_priority_rule(
    files: Seq<FileRecord>,
    a: int,
    b: int,
    pkg: Seq<char>,
    m: Seq<char>,
)
    requires
        0 <= a < files.len(),
        0 <= b < files.len(),
        a != b,
        files[a].defines(Namespace::Package, pkg),
        files[b].uses(Namespace::Package, pkg),
        def_of(files, Namespace::Package, pkg) == Some(a),
        files[a].uses(Namespace::Module, m),
        def_of(files, Namespace::Module, m) == Some(b),
        forall|n: Seq<char>|
            #[trigger] files[a].uses(Namespace::Package, n) ==> def_of(files, Namespace::Package, n)
                != Some(b),
    ensures
        dep_edge(files, b, a),
        !dep_edge(files, a, b),
{
    assert(pkg_edge(files, b, a)) by {
        assert(files[b].uses(Namespace::Package, pkg) && def_of(files, Namespace::Package, pkg)
            == Some(a));
    }
    assert(pkg_blocked(files, a, b)) by {
        assert(files[b].uses(Namespace::Package, pkg) && files[a].defines(
            Namespace::Package,
            pkg,
        ));
    }
    assert(!mod_edge(files, a, b));
    assert(!pkg_edge(files, a, b)) by {
        if pkg_edge(files, a, b) {
            let n = choose|n: Seq<char>|
                #[trigger] files[a].uses(Namespace::Package, n) && def_of(
                    files,
                    Namespace::Package,
                    n,
                ) == Some(b);
        }
    }
}

/// The priority rule seen in the output: in the conflicting pair, whenever
/// the module definer `b` stands in a dependency-ordered output, the
/// package definer `a` stands strictly before it.
pub proof fn lemma_priority_rule_in_output(
    files: Seq<FileRecord>,
    o: Seq<usize>,
    a: int,
    b: int,
    pkg: Seq<char>,
    m: Seq<char>,
    qb: int,
)
    requires
        0 <= a < files.len(),
        0 <= b < files.len(),
        a != b,
        files[a].defines(Namespace::Package, pkg),
        files[b].uses(Namespace::Package, pkg),
        def_of(files, Namespace::Package, pkg) == Some(a),
        files[a].uses(Namespace::Module, m),
        def_of(files, Namespace::Module, m) == Some(b),
        forall|n: Seq<char>|
            #[trigger] files[a].uses(Namespace::Package, n) ==> def_of(files, Namespace::Package, n)
                != Some(b),
        ordered_by_deps(files, o),
        0 <= qb < o.len(),
        o[qb] as int == b,
    ensures
        exists|p: int| 0 <= p < qb && (#[trigger] o[p]) as int == a,
        !dep_edge(files, a, b),
{
    lemma_priority_rule(files, a, b, pkg, m);
    assert(dep_edge(files, o[qb] as int, a));
    let p = choose|p: int| 0 <= p < qb && #[trigger] o[p] == a;
    assert(0 <= p < qb && (o[p]) as int == a);
}

/// A file that uses nothing, and that no other file's uses resolve to,
/// stands alone: it is a root and has no dependency of its own.
pub proof fn lemma_isolated_file(files: Seq<FileRecord>, i: int)
    requires
        0 <= i < files.len(),
        forall|n: Seq<char>| !(#[trigger] files[i].uses(Namespace::Module, n)),
        forall|n: Seq<char>| !(#[trigger] files[i].uses(Namespace::Package, n)),
        forall|j: int, n: Seq<char>|
            0 <= j < files.len() && #[trigger] files[j].uses(Namespace::Module, n) ==> def_of(
                files,
                Namespace::Module,
                n,
            ) != Some(i),
        forall|j: int, n: Seq<char>|
            0 <= j < files.len() && #[trigger] files[j].uses(Namespace::Package, n) ==> def_of(
                files,
                Namespace::Package,
                n,
            ) != Some(i),
    ensures
        is_root(files, i),
        forall|j: int| !(#[trigger] dep_edge(files, i, j)),
{
    assert forall|j: int| !(#[trigger] dep_edge(files, j, i)) by {
        if pkg_edge(files, j, i) {
            let n = choose|n: Seq<char>|
                #[trigger] files[j].uses(Namespace::Package, n) && def_of(
                    files,
                    Namespace::Package,
                    n,
                ) == Some(i);
        }
        if mod_edge(files, j, i) {
            let n = choose|n: Seq<char>|
                #[trigger] files[j].uses(Namespace::Module, n) && def_of(
                    files,
                    Namespace::Module,
                    n,
                ) == Some(i);
        }
    }
    assert forall|j: int| !(#[trigger] dep_edge(files, i, j)) by {
        if pkg_edge(files, i, j) {
            let n = choose|n: Seq<char>|
                #[trigger] files[i].uses(Namespace::Package, n) && def_of(
                    files,
                    Namespace::Package,
                    n,
                ) == Some(j);
        }
        if mod_edge(files, i, j) {
            let n = choose|n: Seq<char>|
                #[trigger] files[i].uses(Namespace::Module, n) && def_of(
                    files,
                    Namespace::Module,
                    n,
                ) == Some(j);
        }
    }
}

/// A dependency shared by two emitted files appears exactly once in a
/// duplicate-free dependency-ordered output, strictly before both of them.
pub proof fn lemma_shared_dependency(
    files: Seq<FileRecord>,
    o: Seq<usize>,
    z: int,
    qx: int,
    qy: int,
)
    requires
        indices_distinct(o),
        ordered_by_deps(files, o),
        0 <= qx < o.len(),
        0 <= qy < o.len(),
        dep_edge(files, o[qx] as int, z),
        dep_edge(files, o[qy] as int, z),
    ensures
        exists|p: int| 0 <= p < qx && p < qy && #[trigger] o[p] == z,
        forall|p1: int, p2: int|
            0 <= p1 < p2 < o.len() && (#[trigger] o[p1]) as int == z ==> (#[trigger] o[p2]) as int
                != z,
{
    let px = choose|p: int| 0 <= p < qx && #[trigger] o[p] == z;
    let py = choose|p: int| 0 <= p < qy && #[trigger] o[p] == z;
    assert(o[px] == o[py]);
    assert(px == py) by {
        if px != py {
            assert(o[px] != o[py]);
        }
    }
    assert(0 <= px < qx && px < qy && o[px] == z);
}

/// A name that no input file defines resolves nowhere: it is assumed
/// satisfied externally and contributes no edge anywhere.
pub proof fn lemma_unresolved_name(files: Seq<FileRecord>, ns: Namespace, n: Seq<char>)
    requires
        forall|k: int| 0 <= k < files.len() ==> !(#[trigger] files[k].defines(ns, n)),
    ensures
        def_of(files, ns, n) is None,
{
    lemma_def_of_none(files, ns, n);
}

/// A file whose every used name is unresolved depends on nothing.
pub proof fn lemma_all_uses_unresolved(files: Seq<FileRecord>, i: int)
    requires
        0 <= i < files.len(),
        forall|n: Seq<char>|
            #[trigger] files[i].uses(Namespace::Module, n) ==> def_of(files, Namespace::Module, n)
                is None,
        forall|n: Seq<char>|
            #[trigger] files[i].uses(Namespace::Package, n) ==> def_of(
                files,
                Namespace::Package,
                n,
            ) is None,
    ensures
        forall|j: int| !(#[trigger] dep_edge(files, i, j)),
{
    assert forall|j: int| !(#[trigger] dep_edge(files, i, j)) by {
        if pkg_edge(files, i, j) {
            let n = choose|n: Seq<char>|
                #[trigger] files[i].uses(Namespace::Package, n) && def_of(
                    files,
                    Namespace::Package,
                    n,
                ) == Some(j);
        }
        if mod_edge(files, i, j) {
            let n = choose|n: Seq<char>|
                #[trigger] files[i].uses(Namespace::Module, n) && def_of(
                    files,
                    Namespace::Module,
                    n,
                ) == Some(j);
        }
    }
}

/// An output closed under single dependency edges is closed along whole
/// walks.
proof fn lemma_closed_along_path(files: Seq<FileRecord>, o: Seq<usize>, w: Seq<int>)
    requires
        forall|q: int, j: int|
            0 <= q < o.len() && #[trigger] dep_edge(files, o[q] as int, j) ==> in_list(o, j),
        dep_path(files, w),
        in_list(o, w.first()),
    ensures
        in_list(o, w.last()),
    decreases w.len(),
{
    if w.len() > 1 {
        let q = choose|q: int| 0 <= q < o.len() && #[trigger] o[q] == w.first();
        assert(dep_edge(files, w[0int], w[0int + 1]));
        assert(dep_edge(files, o[q] as int, w[1]));
        assert(in_list(o, w[1]));
        let w2 = w.subrange(1, w.len() as int);
        assert(dep_path(files, w2)) by {
            assert forall|t: int| 0 <= t < w2.len() - 1 implies #[trigger] dep_edge(
                files,
                w2[t],
                w2[t + 1],
            ) by {
                assert(w2[t] == w[t + 1] && w2[t + 1] == w[t + 2]);
                assert(dep_edge(files, w[t + 1], w[t + 1 + 1]));
            }
        }
        assert(w2.first() == w[1] && w2.last() == w.last());
        lemma_closed_along_path(files, o, w2);
    }
}

/// Whatever an emitted file reaches through dependencies is also emitted:
/// together with the engine's guarantees this pins the output down to
/// exactly the files some root reaches.
pub proof fn lemma_output_closed_under_reach(
    files: Seq<FileRecord>,
    o: Seq<usize>,
    x: int,
    y: int,
)
    requires
        forall|q: int, j: int|
            0 <= q < o.len() && #[trigger] dep_edge(files, o[q] as int, j) ==> in_list(o, j),
        in_list(o, x),
        dep_reaches(files, x, y),
    ensures
        in_list(o, y),
{
    let w = choose|w: Seq<int>| #[trigger] dep_path(files, w) && w.first() == x && w.last() == y;
    lemma_closed_along_path(files, o, w);
}

/// A duplicate-free walk over `n` files cannot be longer than `n`.
proof fn lemma_distinct_walk_len(w: Seq<int>, n: int)
    requires
        w.no_duplicates(),
        forall|i: int| 0 <= i < w.len() ==> 0 <= #[trigger] w[i] < n,
        n >= 0,
    ensures
        w.len() <= n,
{
    w.unique_seq_to_set();
    assert forall|x: int| w.to_set().contains(x) implies set_int_range(0, n).contains(x) by {
        assert(w.contains(x));
        let i = choose|i: int| 0 <= i < w.len() && w[i] == x;
        assert(0 <= w[i] < n);
    }
    lemma_int_range(0, n);
    lemma_len_subset(w.to_set(), set_int_range(0, n));
}

/// On an acyclic graph every duplicate-free walk can be traced back, one
/// predecessor at a time, to a root above its last file.
proof fn lemma_walk_from_root(files: Seq<FileRecord>, w: Seq<int>)
    requires
        dep_acyclic(files),
        dep_path(files, w),
        w.no_duplicates(),
        forall|i: int| 0 <= i < w.len() ==> 0 <= #[trigger] w[i] < files.len(),
    ensures
        exists|r: int| #[trigger] is_root(files, r) && dep_reaches(files, r, w.last()),
    decreases files.len() - w.len(),
{
    let h = w.first();
    if is_root(files, h) {
        assert(dep_path(files, w) && w.first() == h && w.last() == w.last());
        assert(dep_reaches(files, h, w.last()));
    } else {
        assert(0 <= h < files.len());
        assert(exists|j: int| dep_edge(files, j, h));
        let j = choose|j: int| dep_edge(files, j, h);
        // The predecessor is fresh: otherwise the walk closes into a cycle.
        assert(!w.contains(j)) by {
            if w.contains(j) {
                let i = choose|i: int| 0 <= i < w.len() && w[i] == j;
                let c = w.subrange(0, i + 1).push(h);
                assert forall|t: int| 0 <= t < c.len() - 1 implies #[trigger] dep_edge(
                    files,
                    c[t],
                    c[t + 1],
                ) by {
                    if t < i {
                        assert(c[t] == w[t] && c[t + 1] == w[t + 1]);
                        assert(dep_edge(files, w[t], w[t + 1]));
                    } else {
                        assert(c[t] == w[i] && c[t + 1] == h);
                        assert(dep_edge(files, j, h));
                    }
                }
                assert(dep_path(files, c));
                assert(c.first() == h && c.last() == h && c.len() >= 2);
            }
        }
        let w2 = seq![j] + w;
        assert forall|t: int| 0 <= t < w2.len() - 1 implies #[trigger] dep_edge(
            files,
            w2[t],
            w2[t + 1],
        ) by {
            if t == 0 {
                assert(w2[0int] == j && w2[1int] == w[0int]);
                assert(dep_edge(files, j, h));
            } else {
                assert(w2[t] == w[t - 1] && w2[t + 1] == w[t]);
                assert(dep_edge(files, w[t - 1], w[t - 1 + 1]));
            }
        }
        assert(dep_path(files, w2));
        assert(w2.no_duplicates()) by {
            assert forall|i1: int, i2: int| 0 <= i1 < i2 < w2.len() implies w2[i1] != w2[i2] by {
                if i1 == 0 {
                    assert(w2[i1] == j && w2[i2] == w[i2 - 1]);
                    if j == w[i2 - 1] {
                        assert(w.contains(j));
                    }
                } else {
                    assert(w2[i1] == w[i1 - 1] && w2[i2] == w[i2 - 1]);
                }
            }
        }
        assert(dep_edge(files, j, h) ==> 0 <= j < files.len());
        assert forall|i: int| 0 <= i < w2.len() implies 0 <= #[trigger] w2[i] < files.len() by {
            if i > 0 {
                assert(w2[i] == w[i - 1]);
                assert(0 <= w[i - 1] < files.len());
            }
        }
        lemma_distinct_walk_len(w2, files.len() as int);
        lemma_walk_from_root(files, w2);
        assert(w2.last() == w.last());
    }
}

/// On an acyclic graph every file sits below some root.
pub proof fn lemma_acyclic_all_root_reachable(files: Seq<FileRecord>, x: int)
    requires
        dep_acyclic(files),
        0 <= x < files.len(),
    ensures
        exists|r: int| #[trigger] is_root(files, r) && dep_reaches(files, r, x),
{
    let w = seq![x];
    assert(dep_path(files, w));
    assert(w.no_duplicates());
    lemma_walk_from_root(files, w);
    assert(w.last() == x);
}

/// On an acyclic graph the engine's output is complete: an output that
/// holds every root and is closed under dependency edges holds every input
/// file, so each dependency then stands strictly before each of its users.
pub proof fn lemma_acyclic_output_complete(files: Seq<FileRecord>, o: Seq<usize>, x: int)
    requires
        dep_acyclic(files),
        0 <= x < files.len(),
        forall|i: int| #[trigger] is_root(files, i) ==> in_list(o, i),
        forall|q: int, j: int|
            0 <= q < o.len() && #[trigger] dep_edge(files, o[q] as int, j) ==> in_list(o, j),
    ensures
        in_list(o, x),
{
    lemma_acyclic_all_root_reachable(files, x);
    let r = choose|r: int| #[trigger] is_root(files, r) && dep_reaches(files, r, x);
    lemma_output_closed_under_reach(files, o, r, x);
}

/// No walk that starts at a root can end at either member of a mutually
/// dependent pair whose only incoming edges come from each other.
proof fn lemma_pair_unreachable(files: Seq<FileRecord>, p: int, q: int, w: Seq<int>)
    requires
        dep_edge(files, p, q),
        dep_edge(files, q, p),
        forall|j: int| #[trigger] dep_edge(files, j, p) ==> j == q,
        forall|j: int| #[trigger] dep_edge(files, j, q) ==> j == p,
        dep_path(files, w),
        is_root(files, w.first()),
    ensures
        w.last() != p,
        w.last() != q,
    decreases w.len(),
{
    if w.len() == 1 {
        assert(w.first() == w.last());
        assert(dep_edge(files, q, p) && dep_edge(files, p, q));
        assert(!is_root(files, p) && !is_root(files, q));
    } else {
        let prev = w[w.len() - 2];
        assert(dep_edge(files, w[w.len() - 2], w[w.len() - 2 + 1]));
        assert(dep_edge(files, prev, w.last()));
        let w2 = w.drop_last();
        assert(dep_path(files, w2)) by {
            assert forall|t: int| 0 <= t < w2.len() - 1 implies #[trigger] dep_edge(
                files,
                w2[t],
                w2[t + 1],
            ) by {
                assert(w2[t] == w[t] && w2[t + 1] == w[t + 1]);
                assert(dep_edge(files, w[t], w[t + 1]));
            }
        }
        assert(w2.first() == w.first());
        assert(w2.last() == prev);
        lemma_pair_unreachable(files, p, q, w2);
        // The walk's last step would have to come from the other member of
        // the pair, which the shorter walk already cannot reach.
        if w.last() == p {
            assert(prev == q);
        }
        if w.last() == q {
            assert(prev == p);
        }
    }
}

/// Cycle containment: two files that mutually depend on each other, with no
/// third file depending on either, are reachable from no root, so an output
/// that only holds root-reachable files omits both.
pub proof fn lemma_cycle_contained(files: Seq<FileRecord>, o: Seq<usize>, p: int, q: int)
    requires
        dep_edge(files, p, q),
        dep_edge(files, q, p),
        forall|j: int| #[trigger] dep_edge(files, j, p) ==> j == q,
        forall|j: int| #[trigger] dep_edge(files, j, q) ==> j == p,
        forall|x: int|
            #[trigger] in_list(o, x) ==> exists|r: int|
                #[trigger] is_root(files, r) && dep_reaches(files, r, x),
    ensures
        !in_list(o, p),
        !in_list(o, q),
{
    if in_list(o, p) {
        let r = choose|r: int| #[trigger] is_root(files, r) && dep_reaches(files, r, p);
        let w = choose|w: Seq<int>|
            #[trigger] dep_path(files, w) && w.first() == r && w.last() == p;
        lemma_pair_unreachable(files, p, q, w);
    }
    if in_list(o, q) {
        let r = choose|r: int| #[trigger] is_root(files, r) && dep_reaches(files, r, q);
        let w = choose|w: Seq<int>|
            #[trigger] dep_path(files, w) && w.first() == r && w.last() == q;
        lemma_pair_unreachable(files, p, q, w);
    }
}

} // verus!
