use vstd::prelude::*;
use crate::order::first_at;
use crate::resolve::{first_path, resolve, resolved, unlisted, Config, ResolutionError};
use crate::scan::{
    copy_range, body_lines, directive_lines, directive_views, lines, scan, specifiers, views, ScannedFile,
};

verus! {

/// The files that imports can reach: each path, written in normalized
/// absolute form, with its text, and the paths known to be missing. No two
/// files share a path.
pub struct SourceTree {
    pub paths: Vec<Vec<u8>>,
    pub texts: Vec<Vec<u8>>,
    /// Paths known not to name a file.
    pub missing: Vec<Vec<u8>>,
}

impl SourceTree {
    pub open spec fn wf(&self) -> bool {
        &&& self.paths@.len() == self.texts@.len()
        &&& views(self.paths@).no_duplicates()
    }
}

/// The files reachable from a target. Node `u` is the file
/// `files[u]` of the tree, `units[u]` is its scan, and `edges[u]` lists the
/// nodes that its imports name, in the order of the imports.
pub struct ImportGraph {
    pub files: Vec<usize>,
    pub units: Vec<ScannedFile>,
    pub edges: Vec<Vec<usize>>,
}

#[derive(Debug)]
pub enum GraphError {
    /// The import `specifier` of the file at `file` names no known file.
    Resolution { file: Vec<u8>, specifier: Vec<u8>, error: ResolutionError },
}

/// One of the imports of file `a` of the tree resolves to the path of file `b`.
pub open spec fn imports_file(tree: SourceTree, cfg: Config, a: usize, b: usize) -> bool {
    &&& a < tree.paths@.len()
    &&& b < tree.paths@.len()
    &&& exists|s: Seq<u8>|
        #[trigger] specifiers(lines(tree.texts@[a as int]@)).contains(s) && resolved(views(tree.paths@), views(tree.missing@),
            s,
            tree.paths@[a as int]@,
            cfg,
        ) == Some(tree.paths@[b as int]@)
}

/// File `f` of the tree is the target or is reached from it by a chain of
/// imports.
pub open spec fn reaches(tree: SourceTree, cfg: Config, target: usize, f: usize) -> bool {
    exists|c: Seq<usize>|
        c.len() >= 1 && c[0] == target && #[trigger] c[c.len() - 1] == f && forall|i: int|
            0 <= i < c.len() - 1 ==> imports_file(tree, cfg, #[trigger] c[i], c[i + 1])
}

proof fn lemma_reaches_step(tree: SourceTree, cfg: Config, target: usize, a: usize, b: usize)
    requires
        reaches(tree, cfg, target, a),
        imports_file(tree, cfg, a, b),
    ensures
        reaches(tree, cfg, target, b),
{
    let c = choose|c: Seq<usize>|
        c.len() >= 1 && c[0] == target && #[trigger] c[c.len() - 1] == a && forall|i: int|
            0 <= i < c.len() - 1 ==> imports_file(tree, cfg, #[trigger] c[i], c[i + 1]);
    let d = c.push(b);
    assert forall|i: int| 0 <= i < d.len() - 1 implies imports_file(tree, cfg, #[trigger] d[i], d[i + 1]) by {
        if i < c.len() - 1 {
            assert(d[i] == c[i] && d[i + 1] == c[i + 1]);
        } else {
            assert(d[i] == a);
        }
    }
    assert(d[d.len() - 1] == b);
}

/// `unit` is the scan of the text of node `u`, and `e` points each of its
/// imports at the node of the file that the import resolves to.
pub open spec fn node_ok(
    tree: SourceTree,
    cfg: Config,
    files: Seq<usize>,
    unit: ScannedFile,
    e: Seq<usize>,
    u: int,
) -> bool {
    let f = files[u] as int;
    let ls = lines(tree.texts@[f]@);
    &&& views(unit.imports@) == specifiers(ls)
    &&& directive_views(unit.directives@) == directive_lines(ls)
    &&& views(unit.body@) == body_lines(ls)
    &&& e.len() == specifiers(ls).len()
    &&& forall|j: int|
        0 <= j < e.len() ==> #[trigger] e[j] < files.len() && resolved(views(tree.paths@), views(tree.missing@),
            specifiers(ls)[j],
            tree.paths@[f]@,
            cfg,
        ) == Some(tree.paths@[files[e[j] as int] as int]@)
}

/// What `build` returns: the target first, each file once, every import
/// resolved to a node of the graph.
pub open spec fn graph_of(tree: SourceTree, cfg: Config, target: usize, g: ImportGraph) -> bool {
    &&& g.files@.len() >= 1
    &&& g.files@[0] == target
    &&& g.units@.len() == g.files@.len()
    &&& g.edges@.len() == g.files@.len()
    &&& g.files@.no_duplicates()
    &&& forall|u: int| 0 <= u < g.files@.len() ==> #[trigger] g.files@[u] < tree.paths@.len()
    &&& forall|u: int| 0 <= u < g.files@.len() ==> reaches(tree, cfg, target, #[trigger] g.files@[u])
    &&& forall|u: int|
        0 <= u < g.files@.len() ==> node_ok(
            tree,
            cfg,
            g.files@,
            #[trigger] g.units@[u],
            g.edges@[u]@,
            u,
        )
}

/// A file that the target reaches, at path `file`, has the import `s`, which
/// names no known file.
pub open spec fn unresolved_import(
    tree: SourceTree,
    cfg: Config,
    target: usize,
    file: Seq<u8>,
    s: Seq<u8>,
) -> bool {
    exists|f: usize|
        f < tree.paths@.len() && reaches(tree, cfg, target, f) && #[trigger] tree.paths@[f as int]@ == file
            && specifiers(lines(tree.texts@[f as int]@)).contains(s) && resolved(views(tree.paths@), views(tree.missing@),
            s,
            file,
            cfg,
        ) is None
}

/// The file of the tree that the import `s` of file `f` names: the first
/// one with the path it resolves to.
pub open spec fn resolved_index(tree: SourceTree, cfg: Config, f: usize, s: Seq<u8>) -> Option<usize> {
    match resolved(views(tree.paths@), views(tree.missing@), s, tree.paths@[f as int]@, cfg) {
        Some(p) => Some(first_path(views(tree.paths@), p, 0) as usize),
        None => None,
    }
}

/// Goes through the imports `sp` of file `f` from the `j`-th on: each names a
/// node, which is new at the end of `files` if its file was not met before.
/// The result is `(true, files, row, _)`, or `(false, _, _, i)` where the
/// `i`-th import resolves to nothing.
pub open spec fn add_imports(
    tree: SourceTree,
    cfg: Config,
    f: usize,
    sp: Seq<Seq<u8>>,
    j: int,
    files: Seq<usize>,
    row: Seq<usize>,
) -> (bool, Seq<usize>, Seq<usize>, int)
    decreases sp.len() - j,
{
    if j < 0 || j >= sp.len() {
        (true, files, row, 0)
    } else {
        match resolved_index(tree, cfg, f, sp[j]) {
            None => (false, files, row, j),
            Some(k) => if files.contains(k) {
                add_imports(tree, cfg, f, sp, j + 1, files, row.push(first_at(files, k, 0) as usize))
            } else {
                add_imports(tree, cfg, f, sp, j + 1, files.push(k), row.push(files.len() as usize))
            },
        }
    }
}

/// Breadth-first discovery: the nodes `files` found so far, and the import
/// rows of the first `rows.len()` of them. The result is `(true, files, rows,
/// _, _)`, or `(false, _, _, f, i)` for the first unresolved import, the
/// `i`-th of file `f`. `fuel` bounds the number of files.
pub open spec fn discover(
    tree: SourceTree,
    cfg: Config,
    files: Seq<usize>,
    rows: Seq<Seq<usize>>,
    fuel: nat,
) -> (bool, Seq<usize>, Seq<Seq<usize>>, usize, int)
    decreases fuel,
{
    if rows.len() >= files.len() || fuel == 0 {
        (true, files, rows, 0, 0)
    } else {
        let f = files[rows.len() as int];
        let r = add_imports(tree, cfg, f, specifiers(lines(tree.texts@[f as int]@)), 0, files, seq![]);
        if r.0 {
            discover(tree, cfg, r.1, rows.push(r.2), (fuel - 1) as nat)
        } else {
            (false, r.1, rows, f, r.3)
        }
    }
}

/// The discovery of the files that `target` reaches.
pub open spec fn discovery(tree: SourceTree, cfg: Config, target: usize) -> (
    bool,
    Seq<usize>,
    Seq<Seq<usize>>,
    usize,
    int,
) {
    discover(tree, cfg, seq![target], seq![], tree.paths@.len() as nat)
}

proof fn lemma_chain_in_graph(
    tree: SourceTree,
    cfg: Config,
    target: usize,
    g: ImportGraph,
    c: Seq<usize>,
    i: int,
)
    requires
        tree.wf(),
        graph_of(tree, cfg, target, g),
        c.len() >= 1,
        c[0] == target,
        forall|k: int| 0 <= k < c.len() - 1 ==> imports_file(tree, cfg, #[trigger] c[k], c[k + 1]),
        0 <= i < c.len(),
    ensures
        g.files@.contains(c[i]),
    decreases i,
{
    if i == 0 {
        assert(g.files@[0] == c[0]);
    } else {
        lemma_chain_in_graph(tree, cfg, target, g, c, i - 1);
        let a = c[i - 1];
        let b = c[i];
        assert(imports_file(tree, cfg, a, b));
        let u = choose|u: int| 0 <= u < g.files@.len() && g.files@[u] == a;
        assert(node_ok(tree, cfg, g.files@, g.units@[u], g.edges@[u]@, u));
        let sp = specifiers(lines(tree.texts@[a as int]@));
        let s = choose|s: Seq<u8>|
            #[trigger] sp.contains(s) && resolved(views(tree.paths@), views(tree.missing@), s, tree.paths@[a as int]@, cfg)
                == Some(tree.paths@[b as int]@);
        let j = choose|j: int| 0 <= j < sp.len() && sp[j] == s;
        let e = g.edges@[u]@;
        assert(e[j] < g.files@.len());
        let x = g.files@[e[j] as int];
        assert(tree.paths@[x as int]@ == tree.paths@[b as int]@);
        assert(views(tree.paths@)[x as int] == views(tree.paths@)[b as int]);
        assert(x == b);
    }
}

/// Every file that the target reaches is a node of its graph.
pub proof fn lemma_reached_in_graph(tree: SourceTree, cfg: Config, target: usize, g: ImportGraph, f: usize)
    requires
        tree.wf(),
        graph_of(tree, cfg, target, g),
        reaches(tree, cfg, target, f),
    ensures
        g.files@.contains(f),
{
    let c = choose|c: Seq<usize>|
        c.len() >= 1 && c[0] == target && #[trigger] c[c.len() - 1] == f && forall|i: int|
            0 <= i < c.len() - 1 ==> imports_file(tree, cfg, #[trigger] c[i], c[i + 1]);
    lemma_chain_in_graph(tree, cfg, target, g, c, c.len() - 1);
}

proof fn lemma_first_at_is(p: Seq<usize>, w: usize, x: int, k: int)
    requires
        0 <= k <= x < p.len(),
        p[x] == w,
        forall|y: int| 0 <= y < x ==> p[y] != w,
    ensures
        first_at(p, w, k) == x,
    decreases x - k,
{
    if k < x {
        lemma_first_at_is(p, w, x, k + 1);
    }
}

proof fn lemma_unfilled_empty(s: Seq<Option<usize>>)
    requires
        forall|i: int| 0 <= i < s.len() ==> s[i] is None,
    ensures
        unfilled(s) == s.len(),
    decreases s.len(),
{
    if s.len() > 0 {
        lemma_unfilled_empty(s.drop_last());
    }
}

pub open spec fn unfilled(s: Seq<Option<usize>>) -> nat
    decreases s.len(),
{
    if s.len() == 0 {
        0
    } else {
        unfilled(s.drop_last()) + if s.last() is None { 1nat } else { 0nat }
    }
}

proof fn lemma_unfilled_fill(s: Seq<Option<usize>>, i: int, x: usize)
    requires
        0 <= i < s.len(),
        s[i] is None,
    ensures
        unfilled(s.update(i, Some(x))) + 1 == unfilled(s),
    decreases s.len(),
{
    let t = s.update(i, Some(x));
    if i < s.len() - 1 {
        assert(t.drop_last() =~= s.drop_last().update(i, Some(x)));
        lemma_unfilled_fill(s.drop_last(), i, x);
    } else {
        assert(t.drop_last() =~= s.drop_last());
    }
}

/// Collects the files reachable from the file `target` of the tree, scanning
/// each once and resolving each of its imports.
pub fn build(tree: &SourceTree, cfg: &Config, target: usize) -> (r: Result<ImportGraph, GraphError>)
    requires
        tree.wf(),
        target < tree.paths@.len(),
    ensures
        match r {
            Ok(g) => graph_of(*tree, *cfg, target, g),
            Err(GraphError::Resolution { file, specifier, error }) => unresolved_import(
                *tree,
                *cfg,
                target,
                file@,
                specifier@,
            ),
        },
        r matches Err(GraphError::Resolution { file, specifier, error }) ==> match error {
            ResolutionError::NotFound => unlisted(
                views(tree.paths@),
                views(tree.missing@),
                specifier@,
                file@,
                *cfg,
            ) is None,
            ResolutionError::Unlisted(p) => unlisted(
                views(tree.paths@),
                views(tree.missing@),
                specifier@,
                file@,
                *cfg,
            ) == Some(p@),
        },
        r is Ok == discovery(*tree, *cfg, target).0,
        r matches Ok(g) ==> g.files@ == discovery(*tree, *cfg, target).1 && crate::order::rows(g.edges@)
            == discovery(*tree, *cfg, target).2,
        r matches Err(GraphError::Resolution { file, specifier, error }) ==> {
            let d = discovery(*tree, *cfg, target);
            &&& d.3 < tree.paths@.len()
            &&& file@ == tree.paths@[d.3 as int]@
            &&& 0 <= d.4 < specifiers(lines(tree.texts@[d.3 as int]@)).len()
            &&& specifier@ == specifiers(lines(tree.texts@[d.3 as int]@))[d.4]
        },
{
    let n: usize = tree.paths.len();
    let mut slot: Vec<Option<usize>> = Vec::new();
    let mut i: usize = 0;
    while i < n
        invariant
            i <= n,
            slot@.len() == i,
            forall|k: int| 0 <= k < i ==> #[trigger] slot@[k] is None,
        decreases n - i,
    {
        slot.push(None);
        i = i + 1;
    }
    let mut files: Vec<usize> = Vec::new();
    proof {
        lemma_unfilled_empty(slot@);
        lemma_unfilled_fill(slot@, target as int, 0);
    }
    slot.set(target, Some(0));
    files.push(target);
    proof {
        let c = seq![target];
        assert(c[c.len() - 1] == target);
        assert(reaches(*tree, *cfg, target, target));
    }
    let mut units: Vec<ScannedFile> = Vec::new();
    let mut edges: Vec<Vec<usize>> = Vec::new();
    let mut q: usize = 0;
    assert(files@ =~= seq![target]);
    assert(crate::order::rows(edges@) =~= seq![]);
    while q < files.len()
        invariant
            tree.wf(),
            n == tree.paths@.len(),
            slot@.len() == n,
            files@.len() >= 1,
            files@[0] == target,
            q <= files@.len(),
            units@.len() == q,
            edges@.len() == q,
            forall|k: int| 0 <= k < n ==> match #[trigger] slot@[k] {
                Some(j) => j < files@.len() && files@[j as int] == k,
                None => true,
            },
            forall|j: int|
                0 <= j < files@.len() ==> #[trigger] files@[j] < n && slot@[files@[j] as int] == Some(
                    j as usize,
                ),
            forall|u: int|
                0 <= u < q ==> node_ok(*tree, *cfg, files@, #[trigger] units@[u], edges@[u]@, u),
            forall|u: int| 0 <= u < files@.len() ==> reaches(*tree, *cfg, target, #[trigger] files@[u]),
            unfilled(slot@) + files@.len() == n,
            discover(*tree, *cfg, files@, crate::order::rows(edges@), (n - q) as nat) == discovery(
                *tree,
                *cfg,
                target,
            ),
        decreases unfilled(slot@), files@.len() - q,
    {
        let f = files[q];
        let unit = scan(&tree.texts[f]);
        let ghost ls = lines(tree.texts@[f as int]@);
        let mut e: Vec<usize> = Vec::new();
        let ghost files0 = files@;
        let ghost slot0 = slot@;
        let ghost rows0 = crate::order::rows(edges@);
        assert(rows0.len() == q);
        let mut j: usize = 0;
        while j < unit.imports.len()
            invariant
                tree.wf(),
                n == tree.paths@.len(),
                slot@.len() == n,
                f < n,
                q < files0.len(),
                files0[q as int] == f,
                views(unit.imports@) == specifiers(ls),
                ls == lines(tree.texts@[f as int]@),
                j <= unit.imports@.len(),
                e@.len() == j,
                files0.is_prefix_of(files@),
                unfilled(slot0) + files0.len() == n,
                rows0.len() == q,
                discover(*tree, *cfg, files0, rows0, (n - q) as nat) == discovery(*tree, *cfg, target),
                add_imports(*tree, *cfg, f, specifiers(ls), 0, files0, seq![]) == add_imports(
                    *tree,
                    *cfg,
                    f,
                    specifiers(ls),
                    j as int,
                    files@,
                    e@,
                ),
                reaches(*tree, *cfg, target, f),
                forall|u: int| 0 <= u < files@.len() ==> reaches(*tree, *cfg, target, #[trigger] files@[u]),
                unfilled(slot@) + (files@.len() - files0.len()) == unfilled(slot0),
                forall|k: int| 0 <= k < n ==> match #[trigger] slot@[k] {
                    Some(x) => x < files@.len() && files@[x as int] == k,
                    None => true,
                },
                forall|x: int|
                    0 <= x < files@.len() ==> #[trigger] files@[x] < n && slot@[files@[x] as int]
                        == Some(x as usize),
                forall|x: int|
                    0 <= x < j ==> #[trigger] e@[x] < files@.len() && resolved(views(tree.paths@), views(tree.missing@),
                        specifiers(ls)[x],
                        tree.paths@[f as int]@,
                        *cfg,
                    ) == Some(tree.paths@[files@[e@[x] as int] as int]@),
            decreases unit.imports@.len() - j,
        {
            assert(views(unit.imports@)[j as int] == unit.imports@[j as int]@);
            match resolve(&unit.imports[j], &tree.paths[f], cfg, &tree.paths, &tree.missing) {
                Err(error) => {
                    proof {
                        assert(specifiers(ls)[j as int] == unit.imports@[j as int]@);
                        assert(resolved_index(*tree, *cfg, f, specifiers(ls)[j as int]) is None);
                        assert(add_imports(*tree, *cfg, f, specifiers(ls), j as int, files@, e@) == (
                            false,
                            files@,
                            e@,
                            j as int,
                        ));
                        assert(n - q >= 1);
                    }
                    let file = copy_range(&tree.paths[f], 0, tree.paths[f].len());
                    let specifier = copy_range(&unit.imports[j], 0, unit.imports[j].len());
                    proof {
                        assert(file@ =~= tree.paths@[f as int]@);
                        assert(specifier@ =~= unit.imports@[j as int]@);
                        assert(specifiers(ls)[j as int] == unit.imports@[j as int]@);
                        assert(specifiers(ls).contains(specifier@));
                    }
                    return Err(GraphError::Resolution { file, specifier, error });
                },
                Ok(k) => {
                    proof {
                        assert(specifiers(ls)[j as int] == unit.imports@[j as int]@);
                        assert(specifiers(ls).contains(unit.imports@[j as int]@));
                        assert(imports_file(*tree, *cfg, f, k));
                        lemma_reaches_step(*tree, *cfg, target, f, k);
                    }
                    let ghost files1 = files@;
                    let ghost e1 = e@;
                    proof {
                        assert(specifiers(ls)[j as int] == unit.imports@[j as int]@);
                        assert(views(tree.paths@)[k as int] == tree.paths@[k as int]@);
                        assert(resolved_index(*tree, *cfg, f, specifiers(ls)[j as int]) == Some(k));
                    }
                    match slot[k] {
                        Some(x) => {
                            proof {
                                assert(files1[x as int] == k);
                                assert forall|y: int| 0 <= y < x implies files1[y] != k by {
                                    if files1[y] == k {
                                        assert(slot@[files1[y] as int] == Some(y as usize));
                                    }
                                }
                                lemma_first_at_is(files1, k, x as int, 0);
                                assert(files1.contains(k));
                                assert(add_imports(*tree, *cfg, f, specifiers(ls), j as int, files1, e1)
                                    == add_imports(*tree, *cfg, f, specifiers(ls), j + 1, files1, e1.push(x)));
                            }
                            e.push(x);
                        },
                        None => {
                            proof {
                                assert(!files1.contains(k)) by {
                                    if files1.contains(k) {
                                        let y = choose|y: int| 0 <= y < files1.len() && files1[y] == k;
                                        assert(slot@[files1[y] as int] == Some(y as usize));
                                    }
                                }
                                assert(add_imports(*tree, *cfg, f, specifiers(ls), j as int, files1, e1)
                                    == add_imports(
                                    *tree,
                                    *cfg,
                                    f,
                                    specifiers(ls),
                                    j + 1,
                                    files1.push(k),
                                    e1.push(files1.len() as usize),
                                ));
                            }
                            let x = files.len();
                            proof {
                                lemma_unfilled_fill(slot@, k as int, x);
                            }
                            slot.set(k, Some(x));
                            files.push(k);
                            e.push(x);
                            proof {
                                assert forall|y: int| 0 <= y < n implies match #[trigger] slot@[y] {
                                    Some(z) => z < files@.len() && files@[z as int] == y,
                                    None => true,
                                } by {}
                                assert forall|z: int| 0 <= z < files@.len() implies #[trigger] files@[z] < n
                                    && slot@[files@[z] as int] == Some(z as usize) by {
                                    if z < files1.len() {
                                        assert(files@[z] == files1[z]);
                                        assert(files1[z] != k);
                                    }
                                }
                                assert(files0.is_prefix_of(files@)) by {
                                    assert forall|z: int| 0 <= z < files0.len() implies files0[z] == files@[z] by {
                                        assert(files1[z] == files@[z]);
                                    }
                                }
                            }
                        },
                    }
                    proof {
                        assert forall|x: int| 0 <= x < j + 1 implies #[trigger] e@[x] < files@.len() && resolved(views(tree.paths@), views(tree.missing@),
                            specifiers(ls)[x],
                            tree.paths@[f as int]@,
                            *cfg,
                        ) == Some(tree.paths@[files@[e@[x] as int] as int]@) by {
                            if x < j {
                                assert(e@[x] == e1[x]);
                                assert(files@[e1[x] as int] == files1[e1[x] as int]);
                            } else {
                                assert(files@[e@[x] as int] == k);
                                assert(specifiers(ls)[x] == unit.imports@[j as int]@);
                            }
                        }
                    }
                },
            }
            j = j + 1;
        }
        proof {
            assert forall|u: int| 0 <= u < q implies node_ok(*tree, *cfg, files@, #[trigger] units@[u], edges@[u]@, u) by {
                assert(node_ok(*tree, *cfg, files0, units@[u], edges@[u]@, u));
                assert(files@[u] == files0[u]);
                let eu = edges@[u]@;
                assert forall|x: int| 0 <= x < eu.len() implies files@[eu[x] as int] == files0[eu[x] as int] by {
                    assert(eu[x] < files0.len());
                }
            }
        }
        let ghost units0 = units@;
        let ghost edges0 = edges@;
        proof {
            assert(add_imports(*tree, *cfg, f, specifiers(ls), j as int, files@, e@) == (true, files@, e@, 0int));
            assert(discover(*tree, *cfg, files0, rows0, (n - q) as nat) == discover(
                *tree,
                *cfg,
                files@,
                rows0.push(e@),
                (n - q - 1) as nat,
            ));
        }
        units.push(unit);
        edges.push(e);
        assert(crate::order::rows(edges@) =~= rows0.push(e@));
        proof {
            assert forall|u: int| 0 <= u < q + 1 implies node_ok(*tree, *cfg, files@, #[trigger] units@[u], edges@[u]@, u) by {
                if u < q {
                    assert(units@[u] == units0[u]);
                    assert(edges@[u] == edges0[u]);
                } else {
                    assert(files@[u] == f);
                }
            }
        }
        q = q + 1;
    }
    proof {
        assert forall|a: int, b: int| 0 <= a < files@.len() && 0 <= b < files@.len() && a != b implies files@[a] != files@[b] by {
            assert(slot@[files@[a] as int] == Some(a as usize));
            assert(slot@[files@[b] as int] == Some(b as usize));
        }
    }
    Ok(ImportGraph { files, units, edges })
}

} // verus!
