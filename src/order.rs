use vstd::prelude::*;

verus! {

/// Every edge of the graph points at a node of the graph.
pub open spec fn edges_in_bounds(e: Seq<Vec<usize>>) -> bool {
    forall|u: int, j: int| 0 <= u < e.len() && 0 <= j < e[u]@.len() ==> e[u]@[j] < e.len()
}

/// Node `u` imports node `v`.
pub open spec fn has_edge(e: Seq<Vec<usize>>, u: int, v: int) -> bool {
    0 <= u < e.len() && e[u]@.contains(v as usize) && 0 <= v
}

/// A non-empty walk along edges.
pub open spec fn is_walk(e: Seq<Vec<usize>>, p: Seq<usize>) -> bool {
    &&& p.len() >= 1
    &&& forall|i: int| 0 <= i < p.len() ==> #[trigger] p[i] < e.len()
    &&& forall|i: int| 0 <= i < p.len() - 1 ==> has_edge(e, #[trigger] p[i] as int, p[i + 1] as int)
}

/// A walk of at least one edge that ends where it starts and meets no node
/// twice before that.
pub open spec fn is_cycle(e: Seq<Vec<usize>>, c: Seq<usize>) -> bool {
    &&& c.len() >= 2
    &&& is_walk(e, c)
    &&& c[0] == c[c.len() - 1]
    &&& c.subrange(0, c.len() - 1).no_duplicates()
}

/// `w` stands in `o` before position `i`.
pub open spec fn emitted_before(o: Seq<usize>, i: int, w: usize) -> bool {
    exists|k: int| 0 <= k < i && o[k] == w
}

/// Every import of an emitted node was emitted strictly before it.
pub open spec fn deps_precede(e: Seq<Vec<usize>>, o: Seq<usize>) -> bool {
    forall|i: int, j: int|
        0 <= i < o.len() && 0 <= j < e[o[i] as int]@.len() ==> #[trigger] emitted_before(
            o,
            i,
            e[o[i] as int]@[j],
        )
}

/// An emission order for the files reachable from `target`: no repeats, the
/// target last, and each file after everything it imports.
pub open spec fn is_import_order(e: Seq<Vec<usize>>, target: usize, o: Seq<usize>) -> bool {
    &&& o.len() >= 1
    &&& o.no_duplicates()
    &&& forall|i: int| 0 <= i < o.len() ==> #[trigger] o[i] < e.len()
    &&& o[o.len() - 1] == target
    &&& deps_precede(e, o)
}

/// Index of the first `w` in `p` at or after `k`.
pub open spec fn first_at(p: Seq<usize>, w: usize, k: int) -> int
    decreases p.len() - k,
{
    if k >= p.len() {
        k
    } else if p[k] == w {
        k
    } else {
        first_at(p, w, k + 1)
    }
}

/// The cycle closed by an import of `w` from the end of the walk `p`.
pub open spec fn cycle_from(p: Seq<usize>, w: usize) -> Seq<usize> {
    p.subrange(first_at(p, w, 0), p.len() as int).push(w)
}

/// The depth-first walk from `v`: its imports are walked in the order they
/// were written, then `v` is emitted. The result is `(true, state, out)`, or
/// `(false, _, cycle)` where an import leads back to a file in progress.
/// `fuel` bounds the depth of the walk.
pub open spec fn walk_node(
    e: Seq<Seq<usize>>,
    v: usize,
    st: Seq<u8>,
    path: Seq<usize>,
    out: Seq<usize>,
    fuel: nat,
) -> (bool, Seq<u8>, Seq<usize>)
    decreases fuel, 1nat, 0nat,
{
    let r = walk_imports(e, v, 0, st.update(v as int, 1), path.push(v), out, fuel);
    if r.0 {
        (true, r.1.update(v as int, 2), r.2.push(v))
    } else {
        r
    }
}

/// The walk over the imports of `v` from the `j`-th on.
pub open spec fn walk_imports(
    e: Seq<Seq<usize>>,
    v: usize,
    j: int,
    st: Seq<u8>,
    path: Seq<usize>,
    out: Seq<usize>,
    fuel: nat,
) -> (bool, Seq<u8>, Seq<usize>)
    decreases fuel, 0nat, e[v as int].len() - j,
{
    if j < 0 || j >= e[v as int].len() {
        (true, st, out)
    } else {
        let w = e[v as int][j];
        if st[w as int] == 1 {
            (false, st, cycle_from(path, w))
        } else if st[w as int] == 0 && fuel > 0 {
            let r = walk_node(e, w, st, path, out, (fuel - 1) as nat);
            if r.0 {
                walk_imports(e, v, j + 1, r.1, path, r.2, fuel)
            } else {
                r
            }
        } else {
            walk_imports(e, v, j + 1, st, path, out, fuel)
        }
    }
}

proof fn lemma_walk_node_unfold(
    e: Seq<Seq<usize>>,
    v: usize,
    st: Seq<u8>,
    path: Seq<usize>,
    out: Seq<usize>,
    fuel: nat,
)
    ensures
        ({
            let r = walk_imports(e, v, 0, st.update(v as int, 1), path.push(v), out, fuel);
            walk_node(e, v, st, path, out, fuel) == if r.0 {
                (true, r.1.update(v as int, 2), r.2.push(v))
            } else {
                r
            }
        }),
{
}

/// The depth-first post-order from `target`, or the first cycle it meets.
pub open spec fn walk_from(e: Seq<Seq<usize>>, target: usize) -> (bool, Seq<u8>, Seq<usize>) {
    walk_node(e, target, Seq::new(e.len(), |i: int| 0u8), seq![], seq![], e.len())
}

/// The import lists of a graph as sequences.
pub open spec fn rows(edges: Seq<Vec<usize>>) -> Seq<Seq<usize>> {
    edges.map_values(|v: Vec<usize>| v@)
}

/// Number of nodes not yet visited.
pub open spec fn unvisited(s: Seq<u8>) -> nat
    decreases s.len(),
{
    if s.len() == 0 {
        0
    } else {
        unvisited(s.drop_last()) + if s.last() == 0 { 1nat } else { 0nat }
    }
}

proof fn lemma_unvisited_mark(s: Seq<u8>, i: int, x: u8)
    requires
        0 <= i < s.len(),
        s[i] == 0,
        x != 0,
    ensures
        unvisited(s.update(i, x)) + 1 == unvisited(s),
    decreases s.len(),
{
    let t = s.update(i, x);
    if i < s.len() - 1 {
        assert(t.drop_last() =~= s.drop_last().update(i, x));
        lemma_unvisited_mark(s.drop_last(), i, x);
    } else {
        assert(t.drop_last() =~= s.drop_last());
    }
}

proof fn lemma_unvisited_le_len(s: Seq<u8>)
    ensures
        unvisited(s) <= s.len(),
    decreases s.len(),
{
    if s.len() > 0 {
        lemma_unvisited_le_len(s.drop_last());
    }
}

proof fn lemma_unvisited_mono(a: Seq<u8>, b: Seq<u8>)
    requires
        a.len() == b.len(),
        forall|i: int| 0 <= i < b.len() && b[i] == 0 ==> a[i] == 0,
    ensures
        unvisited(b) <= unvisited(a),
    decreases a.len(),
{
    if a.len() > 0 {
        lemma_unvisited_mono(a.drop_last(), b.drop_last());
    }
}

/// The bookkeeping of the depth-first walk: 0 unvisited, 1 in progress (on
/// `path`), 2 done (in `out`).
pub open spec fn walk_state(
    e: Seq<Vec<usize>>,
    state: Seq<u8>,
    path: Seq<usize>,
    out: Seq<usize>,
) -> bool {
    &&& state.len() == e.len()
    &&& forall|i: int| 0 <= i < state.len() ==> #[trigger] state[i] <= 2
    &&& forall|i: usize| i < state.len() ==> (#[trigger] state[i as int] == 2 <==> out.contains(i))
    &&& forall|i: usize| i < state.len() ==> (#[trigger] state[i as int] == 1 <==> path.contains(i))
    &&& forall|i: int| 0 <= i < out.len() ==> #[trigger] out[i] < e.len()
    &&& forall|i: int| 0 <= i < path.len() ==> #[trigger] path[i] < e.len()
    &&& forall|i: int| 0 <= i < path.len() - 1 ==> has_edge(e, #[trigger] path[i] as int, path[i + 1] as int)
    &&& out.no_duplicates()
    &&& path.no_duplicates()
    &&& deps_precede(e, out)
}

proof fn lemma_deps_precede_push(e: Seq<Vec<usize>>, o: Seq<usize>, v: usize)
    requires
        deps_precede(e, o),
        forall|j: int| 0 <= j < e[v as int]@.len() ==> o.contains(#[trigger] e[v as int]@[j]),
    ensures
        deps_precede(e, o.push(v)),
{
    let p = o.push(v);
    assert forall|i: int, j: int| 0 <= i < p.len() && 0 <= j < e[p[i] as int]@.len() implies #[trigger] emitted_before(
        p,
        i,
        e[p[i] as int]@[j],
    ) by {
        if i < o.len() {
            assert(p[i] == o[i]);
            assert(emitted_before(o, i, e[o[i] as int]@[j]));
            let k = choose|k: int| 0 <= k < i && o[k] == e[o[i] as int]@[j];
            assert(p[k] == o[k]);
        } else {
            assert(p[i] == v);
            assert(o.contains(e[v as int]@[j]));
            let k = choose|k: int| 0 <= k < o.len() && o[k] == e[v as int]@[j];
            assert(p[k] == o[k]);
        }
    }
}

/// Cuts the walk `path`, which ends in a node that imports `w`, from the
/// first `w` on and closes it with `w`.
fn close_cycle(edges: &Vec<Vec<usize>>, path: &Vec<usize>, w: usize) -> (c: Vec<usize>)
    requires
        is_walk(edges@, path@),
        path@.no_duplicates(),
        has_edge(edges@, path@.last() as int, w as int),
        path@.contains(w),
    ensures
        is_cycle(edges@, c@),
        c@ == cycle_from(path@, w),
{
    let mut k: usize = 0;
    while k < path.len() && path[k] != w
        invariant
            k <= path@.len(),
            path@.contains(w),
            forall|kk: int| 0 <= kk < k ==> path@[kk] != w,
            first_at(path@, w, k as int) == first_at(path@, w, 0),
        decreases path@.len() - k,
    {
        k = k + 1;
    }
    assert(k < path@.len() && path@[k as int] == w) by {
        let q = choose|q: int| 0 <= q < path@.len() && path@[q] == w;
        assert(q >= k);
    }
    let mut c: Vec<usize> = Vec::new();
    let mut m: usize = k;
    while m < path.len()
        invariant
            k <= m <= path@.len(),
            c@ == path@.subrange(k as int, m as int),
        decreases path@.len() - m,
    {
        c.push(path[m]);
        m = m + 1;
        assert(c@ =~= path@.subrange(k as int, m as int));
    }
    let ghost body = c@;
    c.push(w);
    assert(c@ =~= cycle_from(path@, w));
    assert(c@.subrange(0, c@.len() - 1) =~= body);
    assert(body.no_duplicates()) by {
        assert forall|x: int, y: int| 0 <= x < body.len() && 0 <= y < body.len() && x != y implies body[x] != body[y] by {
            assert(body[x] == path@[k + x] && body[y] == path@[k + y]);
        }
    }
    assert forall|i: int| 0 <= i < c@.len() - 1 implies has_edge(edges@, #[trigger] c@[i] as int, c@[i + 1] as int) by {
        if i < c@.len() - 2 {
            assert(c@[i] == path@[k + i] && c@[i + 1] == path@[k + i + 1]);
        } else {
            assert(c@[i] == path@[path@.len() - 1]);
        }
    }
    assert forall|i: int| 0 <= i < c@.len() implies #[trigger] c@[i] < edges@.len() by {
        if i < c@.len() - 1 {
            assert(c@[i] == path@[k + i]);
        } else {
            assert(has_edge(edges@, path@.last() as int, w as int));
        }
    }
    c
}

#[verifier::rlimit(100)]
fn visit(
    edges: &Vec<Vec<usize>>,
    v: usize,
    state: &mut Vec<u8>,
    path: &mut Vec<usize>,
    out: &mut Vec<usize>,
    Ghost(fuel): Ghost<nat>,
) -> (r: Result<(), Vec<usize>>)
    requires
        fuel >= unvisited(old(state)@),
        edges_in_bounds(edges@),
        walk_state(edges@, old(state)@, old(path)@, old(out)@),
        v < edges@.len(),
        old(state)@[v as int] == 0,
        old(path)@.len() > 0 ==> has_edge(edges@, old(path)@.last() as int, v as int),
    ensures
        match r {
            Ok(()) => {
                &&& walk_state(edges@, final(state)@, final(path)@, final(out)@)
                &&& final(path)@ == old(path)@
                &&& final(state)@[v as int] == 2
                &&& final(out)@.len() > 0
                &&& final(out)@.last() == v
                &&& old(out)@.is_prefix_of(final(out)@)
                &&& forall|i: int|
                    0 <= i < final(state)@.len() && #[trigger] final(state)@[i] == 0 ==> old(state)@[i] == 0
            },
            Err(c) => is_cycle(edges@, c@),
        },
        r is Ok == walk_node(rows(edges@), v, old(state)@, old(path)@, old(out)@, fuel).0,
        r is Ok ==> final(state)@ == walk_node(rows(edges@), v, old(state)@, old(path)@, old(out)@, fuel).1
            && final(out)@ == walk_node(rows(edges@), v, old(state)@, old(path)@, old(out)@, fuel).2,
        r matches Err(c) ==> c@ == walk_node(rows(edges@), v, old(state)@, old(path)@, old(out)@, fuel).2,
    decreases fuel,
{
    let ghost state0 = state@;
    let ghost path0 = path@;
    let ghost out0 = out@;
    state.set(v, 1);
    path.push(v);
    proof {
        lemma_unvisited_mark(state0, v as int, 1);
        assert(path@.last() == v);
        assert forall|i: usize| i < state@.len() implies (#[trigger] state@[i as int] == 1 <==> path@.contains(i)) by {
            if i != v {
                if path0.contains(i) {
                    let k = choose|k: int| 0 <= k < path0.len() && path0[k] == i;
                    assert(path@[k] == path0[k]);
                }
                if path@.contains(i) {
                    let k = choose|k: int| 0 <= k < path@.len() && path@[k] == i;
                    assert(path@[path0.len() as int] == v);
                    assert(k < path0.len());
                    assert(path0[k] == path@[k]);
                }
            } else {
                assert(path@[path@.len() - 1] == v);
            }
        }
        assert forall|i: int| 0 <= i < path@.len() - 1 implies has_edge(edges@, #[trigger] path@[i] as int, path@[i + 1] as int) by {
            if i < path0.len() - 1 {
                assert(path@[i] == path0[i] && path@[i + 1] == path0[i + 1]);
            } else {
                assert(path@[i] == path0.last());
            }
        }
    }
    let ghost marked = state@;
    assert(marked == state0.update(v as int, 1));
    let deps = &edges[v];
    let n: usize = deps.len();
    let mut j: usize = 0;
    while j < n
        invariant
            edges_in_bounds(edges@),
            deps@ == edges@[v as int]@,
            n == deps@.len(),
            j <= n,
            v < edges@.len(),
            walk_state(edges@, state@, path@, out@),
            path@ == path0.push(v),
            state@[v as int] == 1,
            marked.len() == state@.len(),
            unvisited(marked) + 1 == unvisited(state0),
            fuel >= unvisited(state0),
            marked == state0.update(v as int, 1),
            state0 == old(state)@,
            path0 == old(path)@,
            out0 == old(out)@,
            walk_imports(rows(edges@), v, 0, marked, path0.push(v), out0, fuel) == walk_imports(rows(edges@),
                v,
                j as int,
                state@,
                path@,
                out@,
                fuel,
            ),
            forall|i: int| 0 <= i < state@.len() && #[trigger] state@[i] == 0 ==> marked[i] == 0,
            state0.len() == marked.len(),
            forall|i: int| 0 <= i < marked.len() && #[trigger] marked[i] == 0 ==> state0[i] == 0,
            forall|jj: int| 0 <= jj < j ==> state@[#[trigger] deps@[jj] as int] == 2,
            out0.is_prefix_of(out@),
        decreases n - j,
    {
        let w = deps[j];
        assert(has_edge(edges@, v as int, w as int)) by {
            assert(edges@[v as int]@[j as int] == w);
        }
        if state[w] == 1 {
            // `w` is on the current path: the path from `w` back to `w` is a cycle.
            let c = close_cycle(edges, path, w);
            proof {
                assert(edges@[v as int]@[j as int] == w);
                assert(walk_imports(rows(edges@), v, j as int, state@, path@, out@, fuel) == (
                    false,
                    state@,
                    cycle_from(path@, w),
                ));
                lemma_walk_node_unfold(rows(edges@), v, state0, path0, out0, fuel);
            }
            return Err(c);
        } else if state[w] == 0 {
            proof {
                lemma_unvisited_mono(marked, state@);
                assert(unvisited(state@) < unvisited(state0));
                assert((fuel - 1) as nat >= unvisited(state@));
            }
            let ghost before = state@;
            let ghost fuel_w = (fuel - 1) as nat;
            match visit(edges, w, state, path, out, Ghost(fuel_w)) {
                Ok(()) => {},
                Err(c) => {
                    proof {
                        lemma_walk_node_unfold(rows(edges@), v, state0, path0, out0, fuel);
                    }
                    return Err(c);
                },
            }
            proof {
                assert forall|jj: int| 0 <= jj <= j implies state@[#[trigger] deps@[jj] as int] == 2 by {
                    if jj < j {
                        assert(before[deps@[jj] as int] == 2);
                        assert(out@.contains(deps@[jj]));
                    }
                }
            }
        }
        j = j + 1;
    }
    proof {
        assert(!out@.contains(v));
    }
    let ghost out1 = out@;
    proof {
        lemma_walk_node_unfold(rows(edges@), v, state0, path0, out0, fuel);
    }
    state.set(v, 2);
    out.push(v);
    path.pop();
    proof {
        assert(path@ =~= path0);
        assert forall|jj: int| 0 <= jj < edges@[v as int]@.len() implies out1.contains(#[trigger] edges@[v as int]@[jj]) by {
            assert(state@[deps@[jj] as int] == 2);
        }
        lemma_deps_precede_push(edges@, out1, v);
        assert forall|i: usize| i < state@.len() implies (#[trigger] state@[i as int] == 2 <==> out@.contains(i)) by {
            if i != v {
                if out1.contains(i) {
                    let k = choose|k: int| 0 <= k < out1.len() && out1[k] == i;
                    assert(out@[k] == out1[k]);
                }
                if out@.contains(i) {
                    let k = choose|k: int| 0 <= k < out@.len() && out@[k] == i;
                    assert(k < out1.len());
                }
            } else {
                assert(out@[out@.len() - 1] == v);
            }
        }
        assert forall|i: usize| i < state@.len() implies (#[trigger] state@[i as int] == 1 <==> path@.contains(i)) by {
            if i == v {
                assert(state0[i as int] == 0);
                assert(!path0.contains(v));
            }
        }
        assert(out0.is_prefix_of(out@)) by {
            assert(out0.is_prefix_of(out1));
            assert forall|i: int| 0 <= i < out0.len() implies out0[i] == out@[i] by {
                assert(out1[i] == out@[i]);
            }
        }
    }
    Ok(())
}

/// Orders the files reachable from `target` so that each comes after every
/// file it imports, or returns a cycle of imports found on the way.
pub fn order(edges: &Vec<Vec<usize>>, target: usize) -> (r: Result<Vec<usize>, Vec<usize>>)
    requires
        edges_in_bounds(edges@),
        target < edges@.len(),
    ensures
        match r {
            Ok(o) => is_import_order(edges@, target, o@),
            Err(c) => is_cycle(edges@, c@),
        },
        r is Ok == walk_from(rows(edges@), target).0,
        match r {
            Ok(o) => o@ == walk_from(rows(edges@), target).2,
            Err(c) => c@ == walk_from(rows(edges@), target).2,
        },
{
    let n: usize = edges.len();
    let mut state: Vec<u8> = Vec::new();
    let mut i: usize = 0;
    while i < n
        invariant
            i <= n,
            state@.len() == i,
            forall|x: int| 0 <= x < i ==> #[trigger] state@[x] == 0,
        decreases n - i,
    {
        state.push(0);
        i = i + 1;
    }
    let mut path: Vec<usize> = Vec::new();
    let mut out: Vec<usize> = Vec::new();
    proof {
        assert(edges@.len() == n);
    }
    let ghost fuel = edges@.len();
    proof {
        lemma_unvisited_le_len(state@);
        assert(state@ =~= Seq::new(edges@.len(), |i: int| 0u8));
    }
    match visit(edges, target, &mut state, &mut path, &mut out, Ghost(fuel)) {
        Ok(()) => Ok(out),
        Err(c) => Err(c),
    }
}

/// In an import order, every file comes strictly after each file it reaches
/// through a chain of imports, not only after its direct imports.
pub proof fn lemma_order_follows_transitive_imports(
    e: Seq<Vec<usize>>,
    target: usize,
    o: Seq<usize>,
    i: int,
    p: Seq<usize>,
)
    requires
        is_import_order(e, target, o),
        0 <= i < o.len(),
        is_walk(e, p),
        p.len() >= 2,
        p[0] == o[i],
    ensures
        emitted_before(o, i, p[p.len() - 1]),
    decreases p.len(),
{
    assert(has_edge(e, p[0] as int, p[1] as int));
    let j = choose|j: int| 0 <= j < e[o[i] as int]@.len() && e[o[i] as int]@[j] == p[1];
    assert(emitted_before(o, i, e[o[i] as int]@[j]));
    let k = choose|k: int| 0 <= k < i && o[k] == p[1];
    if p.len() > 2 {
        let q = p.drop_first();
        assert forall|x: int| 0 <= x < q.len() - 1 implies has_edge(e, #[trigger] q[x] as int, q[x + 1] as int) by {
            assert(q[x] == p[x + 1] && q[x + 1] == p[x + 2]);
        }
        lemma_order_follows_transitive_imports(e, target, o, k, q);
        let m = choose|m: int| 0 <= m < k && o[m] == q[q.len() - 1];
        assert(o[m] == p[p.len() - 1]);
    }
}

} // verus!
