use vstd::prelude::*;
use crate::graph::{build, discovery, lemma_reached_in_graph, node_ok, reaches, graph_of, unresolved_import, GraphError, ImportGraph, SourceTree};
use crate::merge::{lemma_merged_text_same, merge, merged_text};
use crate::order::{is_cycle, is_import_order, order, rows, walk_from};
use crate::resolve::{resolved, unlisted, Config, ResolutionError};
use crate::scan::{copy_range, directive_views, lines, specifiers, views};

verus! {

#[derive(Debug)]
pub enum FlattenError {
    /// An import names no known file.
    Graph(GraphError),
    /// The imports go round in a circle; the paths of the circle, the first
    /// repeated at the end.
    Cycle(Vec<Vec<u8>>),
}

/// The paths of the nodes `c` of `g`.
pub open spec fn node_paths(tree: SourceTree, g: ImportGraph, c: Seq<usize>) -> Seq<Seq<u8>> {
    c.map_values(|u: usize| tree.paths@[g.files@[u as int] as int]@)
}

/// `out` is the target's imports graph written as one text, in an order
/// where each file follows everything it imports.
pub open spec fn flattening(tree: SourceTree, cfg: Config, target: usize, out: Seq<u8>) -> bool {
    exists|g: ImportGraph, o: Seq<usize>|
        discovered(tree, cfg, target, g) && is_import_order(g.edges@, 0, o) && o == walk_from(
            rows(g.edges@),
            0,
        ).2 && out == merged_text(tree, g, o)
}

/// `g` is the graph of the files that `target` reaches, its nodes numbered
/// in breadth-first order of discovery.
pub open spec fn discovered(tree: SourceTree, cfg: Config, target: usize, g: ImportGraph) -> bool {
    &&& graph_of(tree, cfg, target, g)
    &&& discovery(tree, cfg, target).0
    &&& g.files@ == discovery(tree, cfg, target).1
    &&& rows(g.edges@) == discovery(tree, cfg, target).2
}

/// The target's imports go round in the circle of files `c`.
pub open spec fn import_cycle(tree: SourceTree, cfg: Config, target: usize, c: Seq<Seq<u8>>) -> bool {
    exists|g: ImportGraph, nc: Seq<usize>|
        discovered(tree, cfg, target, g) && is_cycle(g.edges@, nc) && nc == walk_from(rows(g.edges@), 0).2
            && c == node_paths(tree, g, nc)
}

/// Flattening is determined by its inputs: the same tree, configuration and
/// target give the same text, and the same circle of files when the imports
/// go round.
pub proof fn lemma_flatten_deterministic(
    tree: SourceTree,
    cfg: Config,
    target: usize,
    out1: Seq<u8>,
    out2: Seq<u8>,
    c1: Seq<Seq<u8>>,
    c2: Seq<Seq<u8>>,
)
    ensures
        flattening(tree, cfg, target, out1) && flattening(tree, cfg, target, out2) ==> out1 == out2,
        import_cycle(tree, cfg, target, c1) && import_cycle(tree, cfg, target, c2) ==> c1 == c2,
{
    if flattening(tree, cfg, target, out1) && flattening(tree, cfg, target, out2) {
        let (g1, o1) = choose|g: ImportGraph, o: Seq<usize>|
            discovered(tree, cfg, target, g) && is_import_order(g.edges@, 0, o) && o == walk_from(
                rows(g.edges@),
                0,
            ).2 && out1 == merged_text(tree, g, o);
        let (g2, o2) = choose|g: ImportGraph, o: Seq<usize>|
            discovered(tree, cfg, target, g) && is_import_order(g.edges@, 0, o) && o == walk_from(
                rows(g.edges@),
                0,
            ).2 && out2 == merged_text(tree, g, o);
        assert(o1 == o2);
        assert forall|i: int| 0 <= i < o1.len() implies #[trigger] o1[i] < g1.units@.len() && o1[i] < g2.units@.len()
            && views(g1.units@[o1[i] as int].body@) == views(g2.units@[o1[i] as int].body@)
            && directive_views(g1.units@[o1[i] as int].directives@) == directive_views(
            g2.units@[o1[i] as int].directives@,
        ) by {
            let u = o1[i] as int;
            assert(node_ok(tree, cfg, g1.files@, g1.units@[u], g1.edges@[u]@, u));
            assert(node_ok(tree, cfg, g2.files@, g2.units@[u], g2.edges@[u]@, u));
        }
        lemma_merged_text_same(tree, g1, g2, o1);
    }
    if import_cycle(tree, cfg, target, c1) && import_cycle(tree, cfg, target, c2) {
        let (g1, n1) = choose|g: ImportGraph, nc: Seq<usize>|
            discovered(tree, cfg, target, g) && is_cycle(g.edges@, nc) && nc == walk_from(rows(g.edges@), 0).2
                && c1 == node_paths(tree, g, nc);
        let (g2, n2) = choose|g: ImportGraph, nc: Seq<usize>|
            discovered(tree, cfg, target, g) && is_cycle(g.edges@, nc) && nc == walk_from(rows(g.edges@), 0).2
                && c2 == node_paths(tree, g, nc);
        assert(n1 == n2);
        assert(c1 =~= c2);
    }
}

/// Where a file that the target reaches has an import that names no known
/// file, there is no flattening: `flatten` fails.
pub proof fn lemma_unresolved_import_fails(
    tree: SourceTree,
    cfg: Config,
    target: usize,
    f: usize,
    s: Seq<u8>,
    out: Seq<u8>,
)
    requires
        tree.wf(),
        f < tree.paths@.len(),
        reaches(tree, cfg, target, f),
        specifiers(lines(tree.texts@[f as int]@)).contains(s),
        resolved(views(tree.paths@), views(tree.missing@), s, tree.paths@[f as int]@, cfg) is None,
    ensures
        !flattening(tree, cfg, target, out),
{
    if flattening(tree, cfg, target, out) {
        let (g, o) = choose|g: ImportGraph, o: Seq<usize>|
            discovered(tree, cfg, target, g) && is_import_order(g.edges@, 0, o) && o == walk_from(
                rows(g.edges@),
                0,
            ).2 && out == merged_text(tree, g, o);
        lemma_reached_in_graph(tree, cfg, target, g, f);
        let u = choose|u: int| 0 <= u < g.files@.len() && g.files@[u] == f;
        assert(node_ok(tree, cfg, g.files@, g.units@[u], g.edges@[u]@, u));
        let sp = specifiers(lines(tree.texts@[f as int]@));
        let j = choose|j: int| 0 <= j < sp.len() && sp[j] == s;
        assert(g.edges@[u]@[j] < g.files@.len());
    }
}

/// Flattens the file `target` of the tree: every file it reaches through
/// imports, each once and after what it imports, as one text without
/// imports and with each distinct directive once at the top.
pub fn flatten(tree: &SourceTree, cfg: &Config, target: usize) -> (r: Result<Vec<u8>, FlattenError>)
    requires
        tree.wf(),
        target < tree.paths@.len(),
    ensures
        match r {
            Ok(out) => flattening(*tree, *cfg, target, out@),
            Err(FlattenError::Graph(GraphError::Resolution { file, specifier, error })) => unresolved_import(
                *tree,
                *cfg,
                target,
                file@,
                specifier@,
            ),
            Err(FlattenError::Cycle(c)) => import_cycle(*tree, *cfg, target, views(c@)),
        },
        r matches Err(FlattenError::Graph(GraphError::Resolution { file, specifier, error })) ==> match error {
            ResolutionError::NotFound => unlisted(
                views(tree.paths@),
                views(tree.missing@),
                specifier@,
                file@,
                *cfg,
            ) is None,
            ResolutionError::Unlisted(p) => unlisted(
                views(tree.paths@),
                views(tree.missing@),
                specifier@,
                file@,
                *cfg,
            ) == Some(p@),
        },
        r matches Err(FlattenError::Graph(GraphError::Resolution { file, specifier, error })) ==> {
            let d = discovery(*tree, *cfg, target);
            &&& !d.0
            &&& d.3 < tree.paths@.len()
            &&& file@ == tree.paths@[d.3 as int]@
            &&& 0 <= d.4 < specifiers(lines(tree.texts@[d.3 as int]@)).len()
            &&& specifier@ == specifiers(lines(tree.texts@[d.3 as int]@))[d.4]
        },
{
    let g = match build(tree, cfg, target) {
        Ok(g) => g,
        Err(e) => {
            return Err(FlattenError::Graph(e));
        },
    };
    proof {
        assert forall|u: int, j: int| 0 <= u < g.edges@.len() && 0 <= j < g.edges@[u]@.len() implies g.edges@[u]@[j]
            < g.edges@.len() by {
            assert(node_ok(*tree, *cfg, g.files@, g.units@[u], g.edges@[u]@, u));
        }
    }
    match order(&g.edges, 0) {
        Ok(o) => {
            let out = merge(tree, &g, &o);
            assert(discovered(*tree, *cfg, target, g) && is_import_order(g.edges@, 0, o@));
            Ok(out)
        },
        Err(c) => {
            let mut paths: Vec<Vec<u8>> = Vec::new();
            let mut i: usize = 0;
            while i < c.len()
                invariant
                    i <= c@.len(),
                    discovered(*tree, *cfg, target, g),
                    is_cycle(g.edges@, c@),
                    c@ == walk_from(rows(g.edges@), 0).2,
                    views(paths@) == node_paths(*tree, g, c@.subrange(0, i as int)),
                decreases c@.len() - i,
            {
                let f = g.files[c[i]];
                let p = copy_range(&tree.paths[f], 0, tree.paths[f].len());
                let ghost p0 = paths@;
                paths.push(p);
                proof {
                    assert(p@ =~= tree.paths@[f as int]@);
                    assert(views(paths@) =~= views(p0).push(p@));
                    assert(c@.subrange(0, i + 1).drop_last() =~= c@.subrange(0, i as int));
                }
                i = i + 1;
                assert(views(paths@) =~= node_paths(*tree, g, c@.subrange(0, i as int)));
            }
            assert(c@.subrange(0, c@.len() as int) =~= c@);
            Err(FlattenError::Cycle(paths))
        },
    }
}

} // verus!
