//! The ordering engine: root detection and a depth-first post-order
//! traversal over the resolved dependency graph. Every file is emitted after
//! the files it depends on whenever the graph is acyclic; a shared visited
//! set makes each file appear at most once, and files only reachable through
//! a rootless cycle are never emitted at all.

use vstd::prelude::*;
use crate::record::FileRecord;
use crate::resolve::{dep_edge, in_list, indices_distinct};

verus! {

/// A walk through the dependency graph: at least one file, each consecutive
/// pair joined by a dependency edge.
pub open spec fn dep_path(files: Seq<FileRecord>, p: Seq<int>) -> bool {
    p.len() >= 1 && (forall|t: int|
        0 <= t < p.len() - 1 ==> #[trigger] dep_edge(files, p[t], p[t + 1]))
}

/// File `j` can be reached from file `i` by following zero or more
/// dependency edges.
pub open spec fn dep_reaches(files: Seq<FileRecord>, i: int, j: int) -> bool {
    exists|p: Seq<int>| #[trigger] dep_path(files, p) && p.first() == i && p.last() == j
}

/// The dependency graph has no cycle: no walk of two or more files returns
/// to its starting file.
pub open spec fn dep_acyclic(files: Seq<FileRecord>) -> bool {
    forall|p: Seq<int>| #[trigger] dep_path(files, p) && p.len() >= 2 ==> p.first() != p.last()
}

/// File `i` is a root: no input file depends on it.
pub open spec fn is_root(files: Seq<FileRecord>, i: int) -> bool {
    0 <= i < files.len() && (forall|j: int| !(#[trigger] dep_edge(files, j, i)))
}

/// Every dependency of an emitted file stands strictly before it in the
/// output.
pub open spec fn ordered_by_deps(files: Seq<FileRecord>, o: Seq<usize>) -> bool {
    forall|q: int, j: int|
        0 <= q < o.len() && #[trigger] dep_edge(files, o[q] as int, j) ==> exists|p: int|
            0 <= p < q && #[trigger] o[p] == j
}

/// Every output entry is a valid file index.
pub open spec fn output_bounded(n: int, o: Seq<usize>) -> bool {
    forall|q: int| 0 <= q < o.len() ==> (#[trigger] o[q]) < n
}

/// Every dependency of an emitted file carries a visited mark.
pub open spec fn emitted_deps_visited(
    files: Seq<FileRecord>,
    o: Seq<usize>,
    vis: Seq<bool>,
) -> bool {
    forall|q: int, j: int|
        0 <= q < o.len() && #[trigger] dep_edge(files, o[q] as int, j) ==> vis[j]
}

/// Some frame of the traversal stack holds file `x`.
pub open spec fn stack_has(st: Seq<(usize, usize)>, x: int) -> bool {
    exists|t: int| 0 <= t < st.len() && (#[trigger] st[t]).0 == x
}

/// The number of files not yet visited; the traversal's primary measure.
spec fn count_unvisited(v: Seq<bool>) -> int
    decreases v.len(),
{
    if v.len() == 0 {
        0
    } else {
        count_unvisited(v.drop_last()) + (if v.last() {
            0int
        } else {
            1int
        })
    }
}

proof fn lemma_count_unvisited_nonneg(v: Seq<bool>)
    ensures
        count_unvisited(v) >= 0,
    decreases v.len(),
{
    if v.len() > 0 {
        lemma_count_unvisited_nonneg(v.drop_last());
    }
}

proof fn lemma_count_unvisited_update(v: Seq<bool>, i: int)
    requires
        0 <= i < v.len(),
        !v[i],
    ensures
        count_unvisited(v.update(i, true)) == count_unvisited(v) - 1,
    decreases v.len(),
{
    let w = v.update(i, true);
    if i == v.len() - 1 {
        assert(w.drop_last() =~= v.drop_last());
    } else {
        assert(w.drop_last() =~= v.drop_last().update(i, true));
        lemma_count_unvisited_update(v.drop_last(), i);
    }
}

/// The work left in the stack frames: for each frame, the dependencies not
/// yet examined; the traversal's secondary measure.
spec fn rem_sum(deps: Seq<Vec<usize>>, st: Seq<(usize, usize)>) -> int
    decreases st.len(),
{
    if st.len() == 0 {
        0
    } else {
        rem_sum(deps, st.drop_last()) + deps[st.last().0 as int]@.len() - st.last().1
    }
}

proof fn lemma_rem_sum_nonneg(deps: Seq<Vec<usize>>, st: Seq<(usize, usize)>)
    requires
        forall|t: int|
            0 <= t < st.len() ==> (#[trigger] st[t]).0 < deps.len() && st[t].1 <= deps[st[t].0 as int]@.len(),
    ensures
        rem_sum(deps, st) >= 0,
    decreases st.len(),
{
    if st.len() > 0 {
        lemma_rem_sum_nonneg(deps, st.drop_last());
    }
}

/// Membership in a pushed list: the old members plus the new element.
pub proof fn lemma_in_list_push(l: Seq<usize>, y: usize)
    ensures
        forall|x: int| #[trigger] in_list(l.push(y), x) <==> in_list(l, x) || x == y as int,
{
    assert forall|x: int| #[trigger] in_list(l.push(y), x) implies in_list(l, x) || x == y as int by {
        let k = choose|k: int| 0 <= k < l.push(y).len() && #[trigger] l.push(y)[k] == x;
        if k < l.len() {
            assert(l[k] == x);
        }
    }
    assert forall|x: int| in_list(l, x) || x == y as int implies #[trigger] in_list(l.push(y), x) by {
        if in_list(l, x) {
            let k = choose|k: int| 0 <= k < l.len() && #[trigger] l[k] == x;
            assert(l.push(y)[k] == x);
        } else {
            assert(l.push(y)[l.len() as int] == x);
        }
    }
}

/// A file reaches itself by the one-file walk.
pub proof fn lemma_reaches_refl(files: Seq<FileRecord>, i: int)
    ensures
        dep_reaches(files, i, i),
{
    let p = seq![i];
    assert(dep_path(files, p));
    assert(p.first() == i && p.last() == i);
}

/// Reachability extends along a dependency edge.
pub proof fn lemma_reaches_step(files: Seq<FileRecord>, i: int, j: int, k: int)
    requires
        dep_reaches(files, i, j),
        dep_edge(files, j, k),
    ensures
        dep_reaches(files, i, k),
{
    let p = choose|p: Seq<int>| #[trigger] dep_path(files, p) && p.first() == i && p.last() == j;
    let q = p.push(k);
    assert forall|t: int| 0 <= t < q.len() - 1 implies #[trigger] dep_edge(files, q[t], q[t + 1]) by {
        if t < p.len() - 1 {
            assert(q[t] == p[t] && q[t + 1] == p[t + 1]);
            assert(dep_edge(files, p[t], p[t + 1]));
        } else {
            assert(q[t] == p.last() && q[t + 1] == k);
        }
    }
    assert(dep_path(files, q) && q.first() == i && q.last() == k);
}

/// The state the traversal maintains: a well-formed stack whose frames form
/// a walk from the root, a visited set marking exactly the emitted and
/// stacked files, and an output that respects dependencies so far.
spec fn trav_inv(
    fs: Seq<FileRecord>,
    deps: Seq<Vec<usize>>,
    root: int,
    out0: Seq<usize>,
    vis0: Seq<bool>,
    st: Seq<(usize, usize)>,
    vis: Seq<bool>,
    o: Seq<usize>,
) -> bool {
    &&& deps.len() == fs.len()
    &&& (forall|i: int, j: int|
        0 <= i < fs.len() ==> (#[trigger] in_list(deps[i]@, j) <==> dep_edge(fs, i, j)))
    &&& 0 <= root < fs.len()
    &&& vis.len() == fs.len()
    &&& vis0.len() == fs.len()
    &&& (forall|t: int|
        0 <= t < st.len() ==> (#[trigger] st[t]).0 < fs.len() && st[t].1 <= deps[st[t].0 as int]@.len())
    &&& (forall|t: int, mm: int|
        0 <= t < st.len() && 0 <= mm < (#[trigger] st[t]).1 ==> vis[#[trigger] deps[st[t].0 as int]@[mm] as int])
    &&& (forall|t: int|
        0 <= t < st.len() - 1 ==> (#[trigger] st[t]).1 >= 1 && deps[st[t].0 as int]@[st[t].1 - 1]
            == st[t + 1].0)
    &&& (forall|t1: int, t2: int|
        0 <= t1 < t2 < st.len() ==> (#[trigger] st[t1]).0 != (#[trigger] st[t2]).0)
    &&& (forall|t: int| 0 <= t < st.len() ==> !in_list(o, (#[trigger] st[t]).0 as int))
    &&& (forall|t: int| 0 <= t < st.len() ==> vis[(#[trigger] st[t]).0 as int])
    &&& (forall|t: int| 0 <= t < st.len() ==> dep_reaches(fs, root, (#[trigger] st[t]).0 as int))
    &&& (forall|x: int|
        0 <= x < fs.len() ==> ((#[trigger] vis[x]) <==> in_list(o, x) || stack_has(st, x)))
    &&& indices_distinct(o)
    &&& output_bounded(fs.len() as int, o)
    &&& emitted_deps_visited(fs, o, vis)
    &&& (dep_acyclic(fs) ==> ordered_by_deps(fs, o))
    &&& out0.is_prefix_of(o)
    &&& (forall|x: int| 0 <= x < fs.len() && vis0[x] ==> #[trigger] vis[x])
    &&& (forall|x: int|
        #[trigger] in_list(o, x) && !in_list(out0, x) ==> dep_reaches(fs, root, x))
}

/// Advancing the top frame past an already-visited dependency keeps the
/// traversal state intact and shrinks the remaining work.
proof fn lemma_trav_advance_seen(
    fs: Seq<FileRecord>,
    deps: Seq<Vec<usize>>,
    root: int,
    out0: Seq<usize>,
    vis0: Seq<bool>,
    st: Seq<(usize, usize)>,
    vis: Seq<bool>,
    o: Seq<usize>,
    f: usize,
    k: usize,
    k2: usize,
    d: usize,
)
    requires
        trav_inv(fs, deps, root, out0, vis0, st, vis, o),
        st.len() > 0,
        st.last() == (f, k),
        (k as int) < deps[f as int]@.len(),
        k2 == k as int + 1,
        d == deps[f as int]@[k as int],
        vis[d as int],
    ensures
        trav_inv(fs, deps, root, out0, vis0, st.update(st.len() - 1, (f, k2)), vis, o),
        rem_sum(deps, st.update(st.len() - 1, (f, k2))) == rem_sum(deps, st) - 1,
        rem_sum(deps, st) - 1 >= 0,
        count_unvisited(vis) >= 0,
{
    let top = st.len() - 1;
    let st2 = st.update(top, (f, k2));
    assert(st2.drop_last() =~= st.drop_last());
    assert(rem_sum(deps, st2) == rem_sum(deps, st) - 1);
    lemma_count_unvisited_nonneg(vis);
    assert forall|x: int| stack_has(st2, x) <==> stack_has(st, x) by {
        if stack_has(st2, x) {
            let t = choose|t: int| 0 <= t < st2.len() && (#[trigger] st2[t]).0 == x;
            assert((st[t]).0 == x);
        }
        if stack_has(st, x) {
            let t = choose|t: int| 0 <= t < st.len() && (#[trigger] st[t]).0 == x;
            assert((st2[t]).0 == x);
        }
    }
    assert forall|t: int, mm: int|
        0 <= t < st2.len() && 0 <= mm < (#[trigger] st2[t]).1 implies vis[#[trigger] deps[st2[t].0 as int]@[mm] as int] by {
        if t == top {
            assert(st2[t].0 == f && st2[t].1 == k2);
            if mm == k as int {
                assert(deps[f as int]@[mm] == d);
            } else {
                assert(st[t].0 == f && st[t].1 == k);
                assert(vis[deps[st[t].0 as int]@[mm] as int]);
            }
        } else {
            assert(st2[t] == st[t]);
            assert(vis[deps[st[t].0 as int]@[mm] as int]);
        }
    }
    lemma_rem_sum_nonneg(deps, st2);
}

/// Marking a fresh dependency visited and pushing it keeps the traversal
/// state intact and strictly shrinks the set of unvisited files.
proof fn lemma_trav_advance_new(
    fs: Seq<FileRecord>,
    deps: Seq<Vec<usize>>,
    root: int,
    out0: Seq<usize>,
    vis0: Seq<bool>,
    st: Seq<(usize, usize)>,
    vis: Seq<bool>,
    o: Seq<usize>,
    f: usize,
    k: usize,
    k2: usize,
    d: usize,
)
    requires
        trav_inv(fs, deps, root, out0, vis0, st, vis, o),
        st.len() > 0,
        st.last() == (f, k),
        (k as int) < deps[f as int]@.len(),
        k2 == k as int + 1,
        d == deps[f as int]@[k as int],
        !vis[d as int],
    ensures
        trav_inv(
            fs,
            deps,
            root,
            out0,
            vis0,
            st.update(st.len() - 1, (f, k2)).push((d, 0usize)),
            vis.update(d as int, true),
            o,
        ),
        count_unvisited(vis.update(d as int, true)) == count_unvisited(vis) - 1,
        count_unvisited(vis) - 1 >= 0,
{
    let top = st.len() - 1;
    let st1 = st.update(top, (f, k2));
    let st2 = st1.push((d, 0usize));
    let vis2 = vis.update(d as int, true);
    assert(in_list(deps[f as int]@, d as int)) by {
        assert(deps[f as int]@[k as int] == d);
    }
    assert(dep_edge(fs, f as int, d as int));
    assert(d < fs.len());
    lemma_count_unvisited_update(vis, d as int);
    lemma_count_unvisited_nonneg(vis2);
    lemma_reaches_step(fs, root, f as int, d as int);
    // The file just pushed was unvisited, so it is neither emitted nor
    // already on the stack.
    assert(!in_list(o, d as int));
    assert(!stack_has(st, d as int));
    assert forall|x: int| stack_has(st2, x) <==> stack_has(st, x) || x == d as int by {
        if stack_has(st2, x) {
            let t = choose|t: int| 0 <= t < st2.len() && (#[trigger] st2[t]).0 == x;
            if t < st.len() {
                assert((st[t]).0 == x);
            }
        }
        if stack_has(st, x) {
            let t = choose|t: int| 0 <= t < st.len() && (#[trigger] st[t]).0 == x;
            assert((st2[t]).0 == x);
        }
        if x == d as int {
            assert((st2[st2.len() - 1]).0 == x);
        }
    }
    assert forall|t: int, mm: int|
        0 <= t < st2.len() && 0 <= mm < (#[trigger] st2[t]).1 implies vis2[#[trigger] deps[st2[t].0 as int]@[mm] as int] by {
        if t < st2.len() - 1 {
            if t == top {
                assert(st2[t].0 == f && st2[t].1 == k2);
                if mm == k as int {
                    assert(deps[f as int]@[mm] == d);
                } else {
                    assert(st[t].0 == f && st[t].1 == k);
                    assert(vis[deps[st[t].0 as int]@[mm] as int]);
                }
            } else {
                assert(st2[t] == st[t]);
                assert(vis[deps[st[t].0 as int]@[mm] as int]);
            }
            // The marked dependency is a valid file index, so the update
            // axiom carries the old mark over.
            let idx = deps[st2[t].0 as int]@[mm] as int;
            assert(in_list(deps[st2[t].0 as int]@, idx));
            assert(dep_edge(fs, st2[t].0 as int, idx));
            assert(0 <= idx < fs.len());
        } else {
            assert(st2[t] == (d, 0usize));
        }
    }
    assert forall|t: int| 0 <= t < st2.len() - 1 implies (#[trigger] st2[t]).1 >= 1
        && deps[st2[t].0 as int]@[st2[t].1 - 1] == st2[t + 1].0 by {
        if t < st.len() - 1 {
            assert(st2[t] == st[t]);
            assert(st2[t + 1].0 == st[t + 1].0);
            assert((st[t]).1 >= 1 && deps[st[t].0 as int]@[st[t].1 - 1] == st[t + 1].0);
        } else {
            assert(st2[t] == (f, k2) && st2[t + 1] == (d, 0usize));
            assert(deps[f as int]@[k as int] == d);
        }
    }
}

/// A dependency of the top frame's file that still sits on the stack closes
/// a walk into a cycle, so the graph cannot be acyclic.
proof fn lemma_stack_cycle(
    fs: Seq<FileRecord>,
    deps: Seq<Vec<usize>>,
    st: Seq<(usize, usize)>,
    t: int,
    j: int,
)
    requires
        deps.len() == fs.len(),
        forall|i2: int, j2: int|
            0 <= i2 < fs.len() ==> (#[trigger] in_list(deps[i2]@, j2) <==> dep_edge(fs, i2, j2)),
        forall|t2: int|
            0 <= t2 < st.len() ==> (#[trigger] st[t2]).0 < fs.len() && st[t2].1 <= deps[st[t2].0 as int]@.len(),
        forall|t2: int|
            0 <= t2 < st.len() - 1 ==> (#[trigger] st[t2]).1 >= 1 && deps[st[t2].0 as int]@[st[t2].1 - 1]
                == st[t2 + 1].0,
        0 <= t < st.len(),
        st[t].0 as int == j,
        dep_edge(fs, st[st.len() - 1].0 as int, j),
        j != st[st.len() - 1].0 as int,
    ensures
        !dep_acyclic(fs),
{
    let top = st.len() - 1;
    assert(t < top);
    let p = Seq::new((top - t + 1) as nat, |u: int| st[t + u].0 as int);
    assert forall|u: int| 0 <= u < p.len() - 1 implies #[trigger] dep_edge(fs, p[u], p[u + 1]) by {
        let t1 = t + u;
        assert((st[t1]).1 >= 1 && deps[st[t1].0 as int]@[st[t1].1 - 1] == st[t1 + 1].0);
        assert(deps[st[t1].0 as int]@[st[t1].1 - 1] == st[t1 + 1].0);
        assert(in_list(deps[st[t1].0 as int]@, st[t1 + 1].0 as int)) by {
            assert(deps[st[t1].0 as int]@[st[t1].1 - 1] == st[t1 + 1].0);
        }
        assert(p[u] == st[t1].0 as int && p[u + 1] == st[t1 + 1].0 as int);
    }
    let cyc = p.push(j);
    assert forall|u: int| 0 <= u < cyc.len() - 1 implies #[trigger] dep_edge(fs, cyc[u], cyc[u + 1]) by {
        if u < p.len() - 1 {
            assert(cyc[u] == p[u] && cyc[u + 1] == p[u + 1]);
            assert(dep_edge(fs, p[u], p[u + 1]));
        } else {
            assert(cyc[u] == p.last());
            assert(p.last() == st[top].0 as int);
            assert(cyc[u + 1] == j);
        }
    }
    assert(dep_path(fs, cyc));
    assert(cyc.first() == j && cyc.last() == j && cyc.len() >= 2);
}

/// Popping a fully-examined frame emits its file: the output stays
/// duplicate-free, dependency-closed under the visited set, and, on an
/// acyclic graph, dependency-ordered.
proof fn lemma_trav_pop(
    fs: Seq<FileRecord>,
    deps: Seq<Vec<usize>>,
    root: int,
    out0: Seq<usize>,
    vis0: Seq<bool>,
    st: Seq<(usize, usize)>,
    vis: Seq<bool>,
    o: Seq<usize>,
    f: usize,
    k: usize,
)
    requires
        trav_inv(fs, deps, root, out0, vis0, st, vis, o),
        st.len() > 0,
        st.last() == (f, k),
        k as int == deps[f as int]@.len(),
    ensures
        trav_inv(fs, deps, root, out0, vis0, st.drop_last(), vis, o.push(f)),
        rem_sum(deps, st.drop_last()) == rem_sum(deps, st),
        rem_sum(deps, st) >= 0,
        count_unvisited(vis) >= 0,
{
    let top = st.len() - 1;
    let st2 = st.drop_last();
    let o2 = o.push(f);
    lemma_count_unvisited_nonneg(vis);
    lemma_rem_sum_nonneg(deps, st);
    lemma_in_list_push(o, f);
    assert(!in_list(o, f as int));
    // Every dependency of `f` has been examined, hence carries a mark.
    assert forall|j: int| #[trigger] dep_edge(fs, f as int, j) implies vis[j] by {
        assert(in_list(deps[f as int]@, j));
        let mm = choose|mm: int|
            0 <= mm < deps[f as int]@.len() && #[trigger] deps[f as int]@[mm] == j;
        assert(st[top].0 == f && st[top].1 == k);
        assert(vis[deps[st[top].0 as int]@[mm] as int]);
    }
    // The popped file leaves the stack and enters the output.
    assert forall|x: int| stack_has(st, x) <==> stack_has(st2, x) || x == f as int by {
        if stack_has(st, x) {
            let t = choose|t: int| 0 <= t < st.len() && (#[trigger] st[t]).0 == x;
            if t < top {
                assert((st2[t]).0 == x);
            }
        }
        if stack_has(st2, x) {
            let t = choose|t: int| 0 <= t < st2.len() && (#[trigger] st2[t]).0 == x;
            assert((st[t]).0 == x);
        }
        if x == f as int {
            assert((st[top]).0 == x);
        }
    }
    // The extended output stays duplicate-free.
    assert forall|k1: int, k2: int| 0 <= k1 < k2 < o2.len() implies (#[trigger] o2[k1]) != (#[trigger] o2[k2]) by {
        if k2 == o2.len() - 1 {
            assert(o2[k1] == o[k1]);
            assert(!in_list(o, f as int));
        } else {
            assert(o2[k1] == o[k1] && o2[k2] == o[k2]);
        }
    }
    // Under acyclicity no dependency of `f` can still be on the stack, so
    // each is already emitted and the new entry respects the order.
    if dep_acyclic(fs) {
        assert forall|j: int| #[trigger] dep_edge(fs, f as int, j) implies in_list(o, j) by {
            if !in_list(o, j) {
                assert(vis[j]);
                assert(0 <= j < fs.len());
                assert(stack_has(st, j));
                let t = choose|t: int| 0 <= t < st.len() && (#[trigger] st[t]).0 == j;
                assert(j != f as int);
                lemma_stack_cycle(fs, deps, st, t, j);
                assert(false);
            }
        }
        assert forall|q: int, j: int|
            0 <= q < o2.len() && #[trigger] dep_edge(fs, o2[q] as int, j) implies exists|p: int|
            0 <= p < q && #[trigger] o2[p] == j by {
            if q < o.len() {
                assert(o2[q] == o[q]);
                assert(dep_edge(fs, o[q] as int, j));
                let p = choose|p: int| 0 <= p < q && #[trigger] o[p] == j;
                assert(o2[p] == j);
            } else {
                assert(o2[q] == f);
                assert(in_list(o, j));
                let p = choose|p: int| 0 <= p < o.len() && #[trigger] o[p] == j;
                assert(o2[p] == j);
            }
        }
    }
    // Remaining frames are still unemitted: the popped file is distinct
    // from each of them.
    assert forall|t: int| 0 <= t < st2.len() implies !in_list(o2, (#[trigger] st2[t]).0 as int) by {
        assert(st2[t] == st[t]);
        assert((st[t]).0 != (st[top]).0);
    }
    assert(o.is_prefix_of(o2));
}

/// The transpose of the dependency graph: for each file, the files that
/// depend on it. A file whose entry stays empty is a root.
pub fn resolve_dependents(deps: &Vec<Vec<usize>>) -> (users: Vec<Vec<usize>>)
    requires
        forall|j: int, m: int|
            0 <= j < deps@.len() && 0 <= m < deps@[j]@.len() ==> (#[trigger] deps@[j]@[m])
                < deps@.len(),
    ensures
        users@.len() == deps@.len(),
        forall|i: int, j: int|
            0 <= i < deps@.len() ==> (#[trigger] in_list(users@[i]@, j) <==> 0 <= j < deps@.len()
                && in_list(deps@[j]@, i)),
{
    let n = deps.len();
    let mut users: Vec<Vec<usize>> = Vec::new();
    let mut v: usize = 0;
    while v < n
        invariant
            v <= n,
            users@.len() == v,
            forall|i: int| 0 <= i < v ==> (#[trigger] users@[i]@).len() == 0,
        decreases n - v,
    {
        users.push(Vec::new());
        v += 1;
    }
    let ghost ds = deps@;
    let mut j: usize = 0;
    while j < n
        invariant
            n == ds.len(),
            ds == deps@,
            forall|j2: int, m: int|
                0 <= j2 < n && 0 <= m < ds[j2]@.len() ==> (#[trigger] ds[j2]@[m]) < n,
            j <= n,
            users@.len() == n,
            forall|i: int, j2: int|
                0 <= i < n ==> (#[trigger] in_list(users@[i]@, j2) <==> 0 <= j2 < j && in_list(
                    ds[j2]@,
                    i,
                )),
        decreases n - j,
    {
        let mut m: usize = 0;
        while m < deps[j].len()
            invariant
                n == ds.len(),
                ds == deps@,
                forall|j2: int, m2: int|
                    0 <= j2 < n && 0 <= m2 < ds[j2]@.len() ==> (#[trigger] ds[j2]@[m2]) < n,
                j < n,
                m <= ds[j as int]@.len(),
                users@.len() == n,
                forall|i: int, j2: int|
                    0 <= i < n ==> (#[trigger] in_list(users@[i]@, j2) <==> (0 <= j2 < j
                        && in_list(ds[j2]@, i)) || (j2 == j && exists|m2: int|
                        0 <= m2 < m && #[trigger] ds[j as int]@[m2] == i)),
            decreases ds[j as int]@.len() - m,
        {
            let d = deps[j][m];
            let ghost users_prev = users@;
            users[d].push(j);
            proof {
                assert(users@[d as int]@ =~= users_prev[d as int]@.push(j));
                assert forall|i: int, j2: int| 0 <= i < n implies (#[trigger] in_list(
                    users@[i]@,
                    j2,
                ) <==> (0 <= j2 < j && in_list(ds[j2]@, i)) || (j2 == j && exists|m2: int|
                    0 <= m2 < m + 1 && #[trigger] ds[j as int]@[m2] == i)) by {
                    if i == d as int {
                        lemma_in_list_push(users_prev[i]@, j);
                        if in_list(users@[i]@, j2) && !in_list(users_prev[i]@, j2) {
                            assert(j2 == j);
                            assert(ds[j as int]@[m as int] == i);
                        }
                        if j2 == j as int && (exists|m2: int|
                            0 <= m2 < m + 1 && #[trigger] ds[j as int]@[m2] == i) && !in_list(
                            users_prev[i]@,
                            j2,
                        ) {
                            assert(in_list(users@[i]@, j2));
                        }
                    } else {
                        assert(users@[i] == users_prev[i]);
                        if j2 == j as int && (exists|m2: int|
                            0 <= m2 < m + 1 && #[trigger] ds[j as int]@[m2] == i) && !in_list(
                            users_prev[i]@,
                            j2,
                        ) {
                            let m2 = choose|m2: int|
                                0 <= m2 < m + 1 && #[trigger] ds[j as int]@[m2] == i;
                            assert(m2 == m as int);
                            assert(i == d as int);
                        }
                    }
                }
            }
            m += 1;
        }
        proof {
            assert forall|i: int, j2: int| 0 <= i < n implies (#[trigger] in_list(users@[i]@, j2)
                <==> 0 <= j2 < j + 1 && in_list(ds[j2]@, i)) by {
                if j2 == j as int {
                    if in_list(ds[j2]@, i) {
                        let m2 = choose|m2: int|
                            0 <= m2 < ds[j2]@.len() && #[trigger] ds[j2]@[m2] == i;
                    }
                    if exists|m2: int|
                        0 <= m2 < ds[j as int]@.len() && #[trigger] ds[j as int]@[m2] == i {
                        let m2 = choose|m2: int|
                            0 <= m2 < ds[j as int]@.len() && #[trigger] ds[j as int]@[m2] == i;
                        assert(in_list(ds[j2]@, i));
                    }
                }
            }
        }
        j += 1;
    }
    users
}

/// One depth-first post-order walk from `root`, sharing the visited set and
/// the output with earlier walks: emits, after its whole not-yet-visited
/// dependency subtree, every file first reached here, and `root` itself
/// last. Marking a file before recursing into it blocks cycles.
pub fn traverse(
    files: &Vec<FileRecord>,
    deps: &Vec<Vec<usize>>,
    root: usize,
    visited: &mut Vec<bool>,
    out: &mut Vec<usize>,
)
    requires
        deps@.len() == files@.len(),
        forall|i: int, j: int|
            0 <= i < files@.len() ==> (#[trigger] in_list(deps@[i]@, j) <==> dep_edge(
                files@,
                i,
                j,
            )),
        old(visited)@.len() == files@.len(),
        root < files@.len(),
        !old(visited)@[root as int],
        indices_distinct(old(out)@),
        output_bounded(files@.len() as int, old(out)@),
        forall|x: int|
            0 <= x < files@.len() ==> ((#[trigger] old(visited)@[x]) <==> in_list(old(out)@, x)),
        emitted_deps_visited(files@, old(out)@, old(visited)@),
        dep_acyclic(files@) ==> ordered_by_deps(files@, old(out)@),
    ensures
        final(visited)@.len() == files@.len(),
        forall|x: int| 0 <= x < files@.len() && old(visited)@[x] ==> #[trigger] final(visited)@[x],
        old(out)@.is_prefix_of(final(out)@),
        indices_distinct(final(out)@),
        output_bounded(files@.len() as int, final(out)@),
        forall|x: int|
            0 <= x < files@.len() ==> ((#[trigger] final(visited)@[x]) <==> in_list(
                final(out)@,
                x,
            )),
        emitted_deps_visited(files@, final(out)@, final(visited)@),
        dep_acyclic(files@) ==> ordered_by_deps(files@, final(out)@),
        in_list(final(out)@, root as int),
        forall|x: int|
            #[trigger] in_list(final(out)@, x) && !in_list(old(out)@, x) ==> dep_reaches(
                files@,
                root as int,
                x,
            ),
{
    let ghost fs = files@;
    let ghost n = files@.len() as int;
    let ghost out0 = out@;
    visited[root] = true;
    let ghost vis0 = visited@;
    let mut stack: Vec<(usize, usize)> = Vec::new();
    stack.push((root, 0));
    proof {
        lemma_reaches_refl(fs, root as int);
        assert((stack@[0]).0 == root);
        assert(stack_has(stack@, root as int));
        assert forall|x: int| 0 <= x < n implies ((#[trigger] visited@[x]) <==> in_list(out@, x)
            || stack_has(stack@, x)) by {
            if stack_has(stack@, x) {
                let t = choose|t: int| 0 <= t < stack@.len() && (#[trigger] stack@[t]).0 == x;
                assert(t == 0);
            }
        }
        assert(out0.is_prefix_of(out@));
        assert(trav_inv(fs, deps@, root as int, out0, vis0, stack@, visited@, out@));
    }
    while stack.len() != 0
        invariant
            fs == files@,
            n == fs.len(),
            root < n,
            trav_inv(fs, deps@, root as int, out0, vis0, stack@, visited@, out@),
        decreases count_unvisited(visited@), rem_sum(deps@, stack@), stack@.len(),
    {
        let top = stack.len() - 1;
        let fr = stack[top];
        let f = fr.0;
        let k = fr.1;
        let ghost st_prev = stack@;
        let ghost vis_prev = visited@;
        let ghost out_prev = out@;
        proof {
            assert(st_prev[top as int] == (f, k));
            assert(f < n && k <= deps@[f as int]@.len());
        }
        if k < deps[f].len() {
            let d = deps[f][k];
            proof {
                assert(deps@[f as int]@[k as int] == d);
                assert(in_list(deps@[f as int]@, d as int));
                assert(dep_edge(fs, f as int, d as int));
                assert(d < n);
            }
            let k2 = k + 1;
            stack[top] = (f, k2);
            if !visited[d] {
                visited[d] = true;
                stack.push((d, 0));
                proof {
                    lemma_trav_advance_new(
                        fs,
                        deps@,
                        root as int,
                        out0,
                        vis0,
                        st_prev,
                        vis_prev,
                        out_prev,
                        f,
                        k,
                        k2,
                        d,
                    );
                    assert(stack@ =~= st_prev.update(top as int, (f, k2)).push((d, 0usize)));
                    assert(visited@ =~= vis_prev.update(d as int, true));
                }
            } else {
                proof {
                    lemma_trav_advance_seen(
                        fs,
                        deps@,
                        root as int,
                        out0,
                        vis0,
                        st_prev,
                        vis_prev,
                        out_prev,
                        f,
                        k,
                        k2,
                        d,
                    );
                    assert(stack@ =~= st_prev.update(top as int, (f, k2)));
                }
            }
        } else {
            let _ = stack.pop();
            out.push(f);
            proof {
                assert(k as int == deps@[f as int]@.len());
                lemma_trav_pop(
                    fs,
                    deps@,
                    root as int,
                    out0,
                    vis0,
                    st_prev,
                    vis_prev,
                    out_prev,
                    f,
                    k,
                );
                assert(stack@ =~= st_prev.drop_last());
                assert(out@ =~= out_prev.push(f));
            }
        }
    }
    proof {
        assert forall|x: int| 0 <= x < n implies ((#[trigger] visited@[x]) <==> in_list(
            out@,
            x,
        )) by {
            if stack_has(stack@, x) {
                let t = choose|t: int| 0 <= t < stack@.len() && (#[trigger] stack@[t]).0 == x;
                assert(false);
            }
        }
        assert(vis0[root as int]);
        assert(visited@[root as int]);
        assert(in_list(out@, root as int));
        assert forall|x: int| 0 <= x < n && old(visited)@[x] implies #[trigger] visited@[x] by {
            assert(vis0[x]);
        }
    }
}

/// The ordering engine: finds the roots in input order and runs one
/// traversal from each, sharing one visited set, so that every file is
/// emitted at most once and only when some root reaches it.
pub fn compute_order(files: &Vec<FileRecord>, deps: &Vec<Vec<usize>>) -> (out: Vec<usize>)
    requires
        deps@.len() == files@.len(),
        forall|i: int, j: int|
            0 <= i < files@.len() ==> (#[trigger] in_list(deps@[i]@, j) <==> dep_edge(
                files@,
                i,
                j,
            )),
    ensures
        indices_distinct(out@),
        output_bounded(files@.len() as int, out@),
        forall|i: int| #[trigger] is_root(files@, i) ==> in_list(out@, i),
        forall|x: int|
            #[trigger] in_list(out@, x) ==> exists|r: int|
                #[trigger] is_root(files@, r) && dep_reaches(files@, r, x),
        forall|q: int, j: int|
            0 <= q < out@.len() && #[trigger] dep_edge(files@, out@[q] as int, j) ==> in_list(
                out@,
                j,
            ),
        dep_acyclic(files@) ==> ordered_by_deps(files@, out@),
        dep_acyclic(files@) ==> forall|x: int| 0 <= x < files@.len() ==> in_list(out@, x),
{
    let ghost fs = files@;
    let ghost n = files@.len() as int;
    proof {
        // Each dependency list holds valid file indices.
        assert forall|j: int, m: int|
            0 <= j < deps@.len() && 0 <= m < deps@[j]@.len() implies (#[trigger] deps@[j]@[m])
            < deps@.len() by {
            assert(in_list(deps@[j]@, deps@[j]@[m] as int));
            assert(dep_edge(fs, j, deps@[j]@[m] as int));
        }
    }
    let users = resolve_dependents(deps);
    let mut visited: Vec<bool> = Vec::new();
    let mut v: usize = 0;
    while v < files.len()
        invariant
            v <= files@.len(),
            visited@.len() == v,
            forall|x: int| 0 <= x < v ==> !(#[trigger] visited@[x]),
        decreases files.len() - v,
    {
        visited.push(false);
        v += 1;
    }
    let mut out: Vec<usize> = Vec::new();
    let mut i: usize = 0;
    while i < files.len()
        invariant
            fs == files@,
            n == fs.len(),
            deps@.len() == n,
            forall|i2: int, j: int|
                0 <= i2 < n ==> (#[trigger] in_list(deps@[i2]@, j) <==> dep_edge(fs, i2, j)),
            users@.len() == n,
            forall|i2: int, j: int|
                0 <= i2 < n ==> (#[trigger] in_list(users@[i2]@, j) <==> 0 <= j < n && in_list(
                    deps@[j]@,
                    i2,
                )),
            i <= n,
            visited@.len() == n,
            forall|x: int| 0 <= x < n ==> ((#[trigger] visited@[x]) <==> in_list(out@, x)),
            indices_distinct(out@),
            output_bounded(n, out@),
            emitted_deps_visited(fs, out@, visited@),
            dep_acyclic(fs) ==> ordered_by_deps(fs, out@),
            forall|r: int| 0 <= r < i && is_root(fs, r) ==> in_list(out@, r),
            forall|x: int|
                #[trigger] in_list(out@, x) ==> exists|r: int|
                    #[trigger] is_root(fs, r) && dep_reaches(fs, r, x),
        decreases files.len() - i,
    {
        let nobody_uses_it = users[i].len() == 0;
        proof {
            if nobody_uses_it {
                assert forall|j: int| !(#[trigger] dep_edge(fs, j, i as int)) by {
                    if 0 <= j < n && dep_edge(fs, j, i as int) {
                        assert(in_list(deps@[j]@, i as int));
                        assert(in_list(users@[i as int]@, j));
                    }
                }
                assert(is_root(fs, i as int));
            } else {
                let j0 = users@[i as int]@[0];
                assert(in_list(users@[i as int]@, j0 as int));
                assert(dep_edge(fs, j0 as int, i as int));
                assert(!is_root(fs, i as int));
            }
        }
        if nobody_uses_it {
            if !visited[i] {
                let ghost out_prev = out@;
                traverse(files, deps, i, &mut visited, &mut out);
                proof {
                    assert forall|x: int| #[trigger] in_list(out@, x) implies exists|r: int|
                        #[trigger] is_root(fs, r) && dep_reaches(fs, r, x) by {
                        if in_list(out_prev, x) {
                        } else {
                            assert(is_root(fs, i as int));
                            assert(dep_reaches(fs, i as int, x));
                        }
                    }
                    // Entries emitted by earlier traversals keep their place.
                    assert forall|x: int| in_list(out_prev, x) implies in_list(out@, x) by {
                        let kk = choose|kk: int|
                            0 <= kk < out_prev.len() && #[trigger] out_prev[kk] == x;
                        assert(out@[kk] == x);
                    }
                }
            }
        }
        i += 1;
    }
    proof {
        // Every dependency of an emitted file is itself emitted: its visited
        // mark and the final mark/output correspondence give membership.
        assert forall|q: int, j: int|
            0 <= q < out@.len() && #[trigger] dep_edge(fs, out@[q] as int, j) implies in_list(
            out@,
            j,
        ) by {
            assert(visited@[j]);
            assert(0 <= j < n);
        }
        if dep_acyclic(fs) {
            assert forall|x: int| 0 <= x < n implies in_list(out@, x) by {
                crate::laws::lemma_acyclic_output_complete(fs, out@, x);
            }
        }
    }
    out
}

/// The whole engine in one call: resolve the per-file dependency sets, then
/// emit a dependency-first order of file indices.
pub fn compilation_order(files: &Vec<FileRecord>) -> (out: Vec<usize>)
    ensures
        indices_distinct(out@),
        output_bounded(files@.len() as int, out@),
        forall|i: int| #[trigger] is_root(files@, i) ==> in_list(out@, i),
        forall|x: int|
            #[trigger] in_list(out@, x) ==> exists|r: int|
                #[trigger] is_root(files@, r) && dep_reaches(files@, r, x),
        forall|q: int, j: int|
            0 <= q < out@.len() && #[trigger] dep_edge(files@, out@[q] as int, j) ==> in_list(
                out@,
                j,
            ),
        dep_acyclic(files@) ==> ordered_by_deps(files@, out@),
        dep_acyclic(files@) ==> forall|x: int| 0 <= x < files@.len() ==> in_list(out@, x),
{
    let deps = crate::resolve::resolve_dependencies(files);
    compute_order(files, &deps)
}

} // verus!
