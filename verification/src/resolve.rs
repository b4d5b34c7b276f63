//! Dependency resolution: global name-to-defining-file lookup (a
//! left-to-right fold in which a later definition of the same name silently
//! wins) and the per-file dependency sets, with the priority rule that lets
//! a package-use relationship override a conflicting module-use one.

use vstd::prelude::*;
use crate::record::{FileRecord, Namespace, list_has, names_distinct};

verus! {

/// The file that a use of `name` in namespace `ns` resolves to: the last
/// file in input order that defines it, or `None` when no input file does
/// (the name is then assumed satisfied externally).
pub open spec fn def_of(files: Seq<FileRecord>, ns: Namespace, name: Seq<char>) -> Option<int>
    decreases files.len(),
{
    if files.len() == 0 {
        None
    } else if files.last().defines(ns, name) {
        Some(files.len() - 1)
    } else {
        def_of(files.drop_last(), ns, name)
    }
}

/// When no file at or above index `i` defines `name`, the lookup is decided
/// by the files below `i` alone.
proof fn lemma_def_of_prefix(files: Seq<FileRecord>, ns: Namespace, name: Seq<char>, i: int)
    requires
        0 <= i <= files.len(),
        forall|k: int| i <= k < files.len() ==> !(#[trigger] files[k].defines(ns, name)),
    ensures
        def_of(files, ns, name) == def_of(files.take(i), ns, name),
    decreases files.len() - i,
{
    if i < files.len() {
        assert(files.drop_last() == files.take(files.len() - 1));
        lemma_def_of_prefix(files.take(files.len() - 1), ns, name, i);
        assert(files.take(files.len() - 1).take(i) == files.take(i));
    } else {
        assert(files.take(i) == files);
    }
}

/// When file `i` defines `name` and no later file does, the lookup answers `i`.
proof fn lemma_def_of_found(files: Seq<FileRecord>, ns: Namespace, name: Seq<char>, i: int)
    requires
        0 <= i < files.len(),
        files[i].defines(ns, name),
        forall|k: int| i < k < files.len() ==> !(#[trigger] files[k].defines(ns, name)),
    ensures
        def_of(files, ns, name) == Some(i),
{
    lemma_def_of_prefix(files, ns, name, i + 1);
    assert(files.take(i + 1).last() == files[i]);
}

/// A successful lookup answers with an index of a file that defines the name.
pub proof fn lemma_def_of_in_range(files: Seq<FileRecord>, ns: Namespace, name: Seq<char>)
    requires
        def_of(files, ns, name) is Some,
    ensures
        0 <= def_of(files, ns, name)->Some_0 < files.len(),
        files[def_of(files, ns, name)->Some_0].defines(ns, name),
    decreases files.len(),
{
    if files.len() > 0 && !files.last().defines(ns, name) {
        lemma_def_of_in_range(files.drop_last(), ns, name);
    }
}

/// When no file at all defines `name`, the lookup answers `None`.
pub proof fn lemma_def_of_none(files: Seq<FileRecord>, ns: Namespace, name: Seq<char>)
    requires
        forall|k: int| 0 <= k < files.len() ==> !(#[trigger] files[k].defines(ns, name)),
    ensures
        def_of(files, ns, name) is None,
{
    lemma_def_of_prefix(files, ns, name, 0);
    assert(files.take(0) =~= Seq::<FileRecord>::empty());
}

/// Looks `name` up in the global definition table for `ns`: scans from the
/// last file backwards so that a later definition of the same name wins.
pub fn lookup_def(files: &Vec<FileRecord>, ns: Namespace, name: &String) -> (r: Option<usize>)
    ensures
        match r {
            Some(j) => def_of(files@, ns, name@) == Some(j as int),
            None => def_of(files@, ns, name@) is None,
        },
{
    let mut i: usize = files.len();
    while i > 0
        invariant
            i <= files.len(),
            forall|k: int| i <= k < files@.len() ==> !(#[trigger] files@[k].defines(ns, name@)),
        decreases i,
    {
        i -= 1;
        let defined = match ns {
            Namespace::Module => crate::record::name_list_contains(&files[i].modules_defined, name),
            Namespace::Package => crate::record::name_list_contains(&files[i].packages_defined, name),
        };
        if defined {
            proof {
                lemma_def_of_found(files@, ns, name@, i as int);
            }
            return Some(i);
        }
    }
    proof {
        lemma_def_of_none(files@, ns, name@);
    }
    None
}

/// File `i` package-depends on file `j`: some package or class name that `i`
/// uses resolves to `j`, a different file.
pub open spec fn pkg_edge(files: Seq<FileRecord>, i: int, j: int) -> bool {
    &&& 0 <= i < files.len()
    &&& 0 <= j < files.len()
    &&& i != j
    &&& exists|n: Seq<char>|
        #[trigger] files[i].uses(Namespace::Package, n)
            && def_of(files, Namespace::Package, n) == Some(j)
}

/// The priority rule's guard: file `j` uses some package or class that file
/// `i` defines, so `j` is already known (via the package pass in the other
/// direction) to depend on `i`.
pub open spec fn pkg_blocked(files: Seq<FileRecord>, i: int, j: int) -> bool {
    exists|n: Seq<char>|
        #[trigger] files[j].uses(Namespace::Package, n) && files[i].defines(Namespace::Package, n)
}

/// File `i` module-depends on file `j`: some module name that `i` uses
/// resolves to `j`, a different file, and the priority rule does not strike
/// the edge (a package-use relationship is authoritative over a module-use
/// one, so a conflicting pair of files keeps only the package direction).
pub open spec fn mod_edge(files: Seq<FileRecord>, i: int, j: int) -> bool {
    &&& 0 <= i < files.len()
    &&& 0 <= j < files.len()
    &&& i != j
    &&& exists|n: Seq<char>|
        #[trigger] files[i].uses(Namespace::Module, n)
            && def_of(files, Namespace::Module, n) == Some(j)
    &&& !pkg_blocked(files, i, j)
}

/// File `i` depends on file `j`: `j` must be compiled before `i`.
pub open spec fn dep_edge(files: Seq<FileRecord>, i: int, j: int) -> bool {
    pkg_edge(files, i, j) || mod_edge(files, i, j)
}

/// Membership of a file index in a dependency list.
pub open spec fn in_list(l: Seq<usize>, j: int) -> bool {
    exists|k: int| 0 <= k < l.len() && #[trigger] l[k] == j
}

/// No index occurs twice in the list.
pub open spec fn indices_distinct(l: Seq<usize>) -> bool {
    forall|k1: int, k2: int| 0 <= k1 < k2 < l.len() ==> #[trigger] l[k1] != #[trigger] l[k2]
}

/// Appends `j` unless it is already present.
fn push_index_if_absent(l: &mut Vec<usize>, j: usize)
    requires
        indices_distinct(old(l)@),
    ensures
        indices_distinct(final(l)@),
        forall|x: int| #[trigger] in_list(final(l)@, x) <==> in_list(old(l)@, x) || x == j,
{
    let mut k: usize = 0;
    let mut found = false;
    while k < l.len()
        invariant
            k <= l.len(),
            found <==> exists|k2: int| 0 <= k2 < k && #[trigger] l@[k2] == j,
        decreases l.len() - k,
    {
        if l[k] == j {
            found = true;
        }
        k += 1;
    }
    if !found {
        let ghost prev = l@;
        l.push(j);
        assert forall|x: int| #[trigger] in_list(l@, x) implies in_list(prev, x) || x == j by {
            let k2 = choose|k2: int| 0 <= k2 < l@.len() && #[trigger] l@[k2] == x;
            if k2 < prev.len() {
                assert(prev[k2] == x);
            }
        }
        assert forall|x: int| in_list(prev, x) || x == j implies #[trigger] in_list(l@, x) by {
            if in_list(prev, x) {
                let k2 = choose|k2: int| 0 <= k2 < prev.len() && #[trigger] prev[k2] == x;
                assert(l@[k2] == x);
            } else {
                assert(l@[l@.len() - 1] == j);
            }
        }
    } else {
        assert(in_list(l@, j as int));
    }
}

/// The package-pass edges of file `i` restricted to its first `k` used names.
spec fn pkg_edge_upto(files: Seq<FileRecord>, i: int, j: int, k: int) -> bool {
    &&& 0 <= i < files.len()
    &&& 0 <= j < files.len()
    &&& i != j
    &&& exists|k2: int|
        0 <= k2 < k && def_of(files, Namespace::Package, #[trigger] files[i].packages_used@[k2]@)
            == Some(j)
}

/// The module-pass edges of file `i` restricted to its first `k` used names.
spec fn mod_edge_upto(files: Seq<FileRecord>, i: int, j: int, k: int) -> bool {
    &&& 0 <= i < files.len()
    &&& 0 <= j < files.len()
    &&& i != j
    &&& exists|k2: int|
        0 <= k2 < k && def_of(files, Namespace::Module, #[trigger] files[i].modules_used@[k2]@)
            == Some(j)
    &&& !pkg_blocked(files, i, j)
}

/// Decides `pkg_blocked` by scanning the packages `j` uses for one that `i`
/// defines.
fn pkg_blocked_exec(files: &Vec<FileRecord>, i: usize, j: usize) -> (r: bool)
    requires
        i < files.len(),
        j < files.len(),
    ensures
        r == pkg_blocked(files@, i as int, j as int),
{
    let used = &files[j].packages_used;
    let mut k: usize = 0;
    while k < used.len()
        invariant
            i < files@.len(),
            j < files@.len(),
            used == &files@[j as int].packages_used,
            k <= used@.len(),
            forall|k2: int|
                0 <= k2 < k ==> !files@[i as int].defines(
                    Namespace::Package,
                    #[trigger] used@[k2]@,
                ),
        decreases used.len() - k,
    {
        if crate::record::name_list_contains(&files[i].packages_defined, &used[k]) {
            assert(files@[j as int].uses(Namespace::Package, used@[k as int]@));
            return true;
        }
        k += 1;
    }
    assert forall|n: Seq<char>|
        #[trigger] files@[j as int].uses(Namespace::Package, n) implies !files@[i as int].defines(
        Namespace::Package,
        n,
    ) by {
        let k2 = choose|k2: int| 0 <= k2 < used@.len() && #[trigger] used@[k2]@ == n;
        assert(!files@[i as int].defines(Namespace::Package, used@[k2]@));
    }
    false
}

/// The dependency set of file `i`: every other input file that some name
/// used by `i` resolves to, package pass first, module pass second, with the
/// priority rule applied and the result deduplicated.
fn deps_of_file(files: &Vec<FileRecord>, i: usize) -> (d: Vec<usize>)
    requires
        i < files.len(),
    ensures
        indices_distinct(d@),
        forall|j: int| #[trigger] in_list(d@, j) <==> dep_edge(files@, i as int, j),
{
    let mut d: Vec<usize> = Vec::new();
    let ghost fs = files@;
    let ghost ii = i as int;
    let mut k: usize = 0;
    while k < files[i].packages_used.len()
        invariant
            i < files@.len(),
            files@ == fs,
            ii == i as int,
            k <= fs[ii].packages_used@.len(),
            indices_distinct(d@),
            forall|j: int| #[trigger] in_list(d@, j) <==> pkg_edge_upto(fs, ii, j, k as int),
        decreases files@[i as int].packages_used@.len() - k,
    {
        let ghost d_prev = d@;
        let ghost name_k = fs[ii].packages_used@[k as int]@;
        let r = lookup_def(files, Namespace::Package, &files[i].packages_used[k]);
        let ghost rr = r;
        match r {
            Some(j) => {
                if j != i {
                    proof {
                        lemma_def_of_in_range(fs, Namespace::Package, name_k);
                    }
                    push_index_if_absent(&mut d, j);
                }
            },
            None => {},
        }
        proof {
            assert forall|j: int| #[trigger] in_list(d@, j) <==> pkg_edge_upto(
                fs,
                ii,
                j,
                k as int + 1,
            ) by {
                if in_list(d@, j) {
                    if in_list(d_prev, j) {
                        assert(pkg_edge_upto(fs, ii, j, k as int));
                    } else {
                        assert(def_of(fs, Namespace::Package, fs[ii].packages_used@[k as int]@)
                            == Some(j));
                    }
                }
                if pkg_edge_upto(fs, ii, j, k as int + 1) {
                    let k2 = choose|k2: int|
                        0 <= k2 < k as int + 1 && def_of(
                            fs,
                            Namespace::Package,
                            #[trigger] fs[ii].packages_used@[k2]@,
                        ) == Some(j);
                    if k2 < k as int {
                        assert(pkg_edge_upto(fs, ii, j, k as int));
                    } else {
                        assert(rr == Some(j as usize));
                    }
                }
            }
        }
        k += 1;
    }
    // The package pass is complete: membership so far is exactly `pkg_edge`.
    proof {
        assert forall|j: int| #[trigger] in_list(d@, j) <==> pkg_edge(fs, ii, j) by {
            let ghost len = fs[ii].packages_used@.len() as int;
            if pkg_edge_upto(fs, ii, j, len) {
                let k2 = choose|k2: int|
                    0 <= k2 < len && def_of(
                        fs,
                        Namespace::Package,
                        #[trigger] fs[ii].packages_used@[k2]@,
                    ) == Some(j);
                assert(fs[ii].uses(Namespace::Package, fs[ii].packages_used@[k2]@));
            }
            if pkg_edge(fs, ii, j) {
                let n = choose|n: Seq<char>|
                    #[trigger] fs[ii].uses(Namespace::Package, n) && def_of(
                        fs,
                        Namespace::Package,
                        n,
                    ) == Some(j);
                let k2 = choose|k2: int|
                    0 <= k2 < fs[ii].packages_used@.len()
                        && #[trigger] fs[ii].packages_used@[k2]@ == n;
                assert(def_of(fs, Namespace::Package, fs[ii].packages_used@[k2]@) == Some(j));
                assert(pkg_edge_upto(fs, ii, j, len));
            }
        }
    }
    let mut m: usize = 0;
    while m < files[i].modules_used.len()
        invariant
            i < files@.len(),
            files@ == fs,
            ii == i as int,
            m <= fs[ii].modules_used@.len(),
            indices_distinct(d@),
            forall|j: int| #[trigger] in_list(d@, j) <==> pkg_edge(fs, ii, j) || mod_edge_upto(
                fs,
                ii,
                j,
                m as int,
            ),
        decreases files@[i as int].modules_used@.len() - m,
    {
        let ghost d_prev = d@;
        let ghost name_m = fs[ii].modules_used@[m as int]@;
        let r = lookup_def(files, Namespace::Module, &files[i].modules_used[m]);
        let ghost rr = r;
        match r {
            Some(j) => {
                if j != i {
                    proof {
                        lemma_def_of_in_range(fs, Namespace::Module, name_m);
                    }
                    // Package use has priority over module use: a module edge
                    // towards a file that already package-depends on this one
                    // is skipped.
                    if !pkg_blocked_exec(files, i, j) {
                        push_index_if_absent(&mut d, j);
                    }
                }
            },
            None => {},
        }
        proof {
            assert forall|j: int| #[trigger] in_list(d@, j) <==> pkg_edge(fs, ii, j)
                || mod_edge_upto(fs, ii, j, m as int + 1) by {
                if in_list(d@, j) && !in_list(d_prev, j) {
                    assert(def_of(fs, Namespace::Module, fs[ii].modules_used@[m as int]@) == Some(
                        j,
                    ));
                    assert(mod_edge_upto(fs, ii, j, m as int + 1));
                }
                if mod_edge_upto(fs, ii, j, m as int + 1) && !in_list(d_prev, j) {
                    let k2 = choose|k2: int|
                        0 <= k2 < m as int + 1 && def_of(
                            fs,
                            Namespace::Module,
                            #[trigger] fs[ii].modules_used@[k2]@,
                        ) == Some(j);
                    if k2 < m as int {
                        assert(mod_edge_upto(fs, ii, j, m as int));
                    } else {
                        assert(rr == Some(j as usize));
                        assert(in_list(d@, j));
                    }
                }
            }
        }
        m += 1;
    }
    proof {
        assert forall|j: int| #[trigger] in_list(d@, j) <==> dep_edge(fs, ii, j) by {
            let ghost len = fs[ii].modules_used@.len() as int;
            if mod_edge_upto(fs, ii, j, len) {
                let k2 = choose|k2: int|
                    0 <= k2 < len && def_of(
                        fs,
                        Namespace::Module,
                        #[trigger] fs[ii].modules_used@[k2]@,
                    ) == Some(j);
                assert(fs[ii].uses(Namespace::Module, fs[ii].modules_used@[k2]@));
                assert(mod_edge(fs, ii, j));
            }
            if mod_edge(fs, ii, j) {
                let n = choose|n: Seq<char>|
                    #[trigger] fs[ii].uses(Namespace::Module, n) && def_of(fs, Namespace::Module, n)
                        == Some(j);
                let k2 = choose|k2: int|
                    0 <= k2 < fs[ii].modules_used@.len()
                        && #[trigger] fs[ii].modules_used@[k2]@ == n;
                assert(def_of(fs, Namespace::Module, fs[ii].modules_used@[k2]@) == Some(j));
                assert(mod_edge_upto(fs, ii, j, len));
            }
        }
    }
    d
}

/// Builds the whole dependency graph: for each input file, the set of other
/// input files it depends on, as a duplicate-free list of file indices.
pub fn resolve_dependencies(files: &Vec<FileRecord>) -> (deps: Vec<Vec<usize>>)
    ensures
        deps@.len() == files@.len(),
        forall|i: int| 0 <= i < deps@.len() ==> indices_distinct(#[trigger] deps@[i]@),
        forall|i: int, j: int|
            0 <= i < files@.len() ==> (#[trigger] in_list(deps@[i]@, j) <==> dep_edge(
                files@,
                i,
                j,
            )),
{
    let mut deps: Vec<Vec<usize>> = Vec::new();
    let mut i: usize = 0;
    while i < files.len()
        invariant
            i <= files@.len(),
            deps@.len() == i,
            forall|i2: int| 0 <= i2 < i ==> indices_distinct(#[trigger] deps@[i2]@),
            forall|i2: int, j: int|
                0 <= i2 < i ==> (#[trigger] in_list(deps@[i2]@, j) <==> dep_edge(files@, i2, j)),
        decreases files.len() - i,
    {
        let d = deps_of_file(files, i);
        deps.push(d);
        i += 1;
    }
    deps
}

} // verus!
