use vstd::prelude::*;
use crate::graph::{ImportGraph, SourceTree};
use crate::path::concat;
use crate::resolve::bytes_eq;
use crate::scan::{directive_views, views, Directive, DirectiveKind, ScannedFile};

verus! {

/// The directives of the files `o`, file by file, each file's in its order.
pub open spec fn all_directives(units: Seq<ScannedFile>, o: Seq<usize>) -> Seq<(DirectiveKind, Seq<u8>)>
    decreases o.len(),
{
    if o.len() == 0 {
        seq![]
    } else {
        all_directives(units, o.drop_last()) + directive_views(units[o.last() as int].directives@)
    }
}

/// The distinct texts of the directives of kind `k`, in the order first seen.
pub open spec fn distinct_of_kind(ds: Seq<(DirectiveKind, Seq<u8>)>, k: DirectiveKind) -> Seq<Seq<u8>>
    decreases ds.len(),
{
    if ds.len() == 0 {
        seq![]
    } else {
        let pre = distinct_of_kind(ds.drop_last(), k);
        if ds.last().0 == k && !pre.contains(ds.last().1) {
            pre.push(ds.last().1)
        } else {
            pre
        }
    }
}

/// `// File: `
pub open spec fn file_marker() -> Seq<u8> {
    seq![47u8, 47, 32, 70, 105, 108, 101, 58, 32]
}

/// The lines that stand for the files `o`: for each, a comment that names its
/// path, then its body.
pub open spec fn sections(tree: SourceTree, g: ImportGraph, o: Seq<usize>) -> Seq<Seq<u8>>
    decreases o.len(),
{
    if o.len() == 0 {
        seq![]
    } else {
        let u = o.last() as int;
        sections(tree, g, o.drop_last()) + seq![file_marker() + tree.paths@[g.files@[u] as int]@]
            + views(g.units@[u].body@)
    }
}

/// The merged lines: each distinct license once, then each distinct pragma
/// once, then the files in order.
pub open spec fn merged_lines(tree: SourceTree, g: ImportGraph, o: Seq<usize>) -> Seq<Seq<u8>> {
    let ds = all_directives(g.units@, o);
    distinct_of_kind(ds, DirectiveKind::License) + distinct_of_kind(ds, DirectiveKind::Pragma)
        + sections(tree, g, o)
}

/// Lines written out, each followed by a newline.
pub open spec fn join_lines(ls: Seq<Seq<u8>>) -> Seq<u8>
    decreases ls.len(),
{
    if ls.len() == 0 {
        seq![]
    } else {
        join_lines(ls.drop_last()) + ls.last() + seq![10u8]
    }
}

pub open spec fn merged_text(tree: SourceTree, g: ImportGraph, o: Seq<usize>) -> Seq<u8> {
    join_lines(merged_lines(tree, g, o))
}

/// The merged text of two graphs agrees where their files and scans do.
pub proof fn lemma_merged_text_same(tree: SourceTree, g1: ImportGraph, g2: ImportGraph, o: Seq<usize>)
    requires
        g1.files@ == g2.files@,
        forall|i: int|
            0 <= i < o.len() ==> #[trigger] o[i] < g1.units@.len() && o[i] < g2.units@.len()
                && views(g1.units@[o[i] as int].body@) == views(g2.units@[o[i] as int].body@)
                && directive_views(g1.units@[o[i] as int].directives@) == directive_views(
                g2.units@[o[i] as int].directives@,
            ),
    ensures
        all_directives(g1.units@, o) == all_directives(g2.units@, o),
        sections(tree, g1, o) == sections(tree, g2, o),
        merged_text(tree, g1, o) == merged_text(tree, g2, o),
    decreases o.len(),
{
    if o.len() > 0 {
        let p = o.drop_last();
        assert forall|i: int| 0 <= i < p.len() implies #[trigger] p[i] < g1.units@.len() && p[i] < g2.units@.len()
            && views(g1.units@[p[i] as int].body@) == views(g2.units@[p[i] as int].body@)
            && directive_views(g1.units@[p[i] as int].directives@) == directive_views(
            g2.units@[p[i] as int].directives@,
        ) by {
            assert(p[i] == o[i]);
        }
        lemma_merged_text_same(tree, g1, g2, p);
        assert(o.last() == o[o.len() - 1]);
    }
}

/// Each distinct directive text of a kind is kept exactly once: nothing is
/// repeated, nothing seen is lost, and nothing unseen is added.
pub proof fn lemma_directives_once(ds: Seq<(DirectiveKind, Seq<u8>)>, k: DirectiveKind)
    ensures
        distinct_of_kind(ds, k).no_duplicates(),
        forall|t: Seq<u8>| #[trigger] distinct_of_kind(ds, k).contains(t) <==> ds.contains((k, t)),
    decreases ds.len(),
{
    if ds.len() > 0 {
        let pre = ds.drop_last();
        lemma_directives_once(pre, k);
        let d = distinct_of_kind(pre, k);
        assert forall|t: Seq<u8>| #[trigger] distinct_of_kind(ds, k).contains(t) <==> ds.contains((k, t)) by {
            if ds.contains((k, t)) {
                let i = choose|i: int| 0 <= i < ds.len() && ds[i] == (k, t);
                if i < ds.len() - 1 {
                    assert(pre[i] == (k, t));
                    assert(d.contains(t));
                    if distinct_of_kind(ds, k) != d {
                        assert(distinct_of_kind(ds, k) == d.push(ds.last().1));
                        let m = choose|m: int| 0 <= m < d.len() && d[m] == t;
                        assert(distinct_of_kind(ds, k)[m] == t);
                    }
                } else {
                    if !d.contains(t) {
                        assert(distinct_of_kind(ds, k) == d.push(t));
                        assert(distinct_of_kind(ds, k)[d.len() as int] == t);
                    }
                }
            }
            if distinct_of_kind(ds, k).contains(t) {
                let m = choose|m: int| 0 <= m < distinct_of_kind(ds, k).len() && distinct_of_kind(ds, k)[m] == t;
                if m < d.len() {
                    assert(distinct_of_kind(ds, k)[m] == d[m]);
                    assert(d.contains(t));
                    let i = choose|i: int| 0 <= i < pre.len() && pre[i] == (k, t);
                    assert(ds[i] == pre[i]);
                } else {
                    assert(ds[ds.len() - 1] == (k, t));
                }
            }
        }
    }
}

fn contains_text(v: &Vec<Vec<u8>>, t: &Vec<u8>) -> (r: bool)
    ensures
        r == views(v@).contains(t@),
{
    let mut i: usize = 0;
    while i < v.len()
        invariant
            i <= v@.len(),
            forall|k: int| 0 <= k < i ==> v@[k]@ != t@,
        decreases v@.len() - i,
    {
        if bytes_eq(&v[i], t) {
            assert(views(v@)[i as int] == t@);
            return true;
        }
        i = i + 1;
    }
    proof {
        if views(v@).contains(t@) {
            let k = choose|k: int| 0 <= k < views(v@).len() && views(v@)[k] == t@;
            assert(v@[k]@ == t@);
        }
    }
    false
}

fn push_line(out: &mut Vec<u8>, line: &Vec<u8>, Ghost(done): Ghost<Seq<Seq<u8>>>)
    requires
        old(out)@ == join_lines(done),
    ensures
        final(out)@ == join_lines(done.push(line@)),
{
    let mut r = concat(out, line);
    r.push(10);
    assert(done.push(line@).drop_last() =~= done);
    *out = r;
}

/// Writes the files of `g` in the order `o` as one text: the distinct
/// licenses, the distinct pragmas, then each file's body under a comment that
/// names its path.
pub fn merge(tree: &SourceTree, g: &ImportGraph, o: &Vec<usize>) -> (r: Vec<u8>)
    requires
        g.units@.len() == g.files@.len(),
        forall|i: int| 0 <= i < o@.len() ==> #[trigger] o@[i] < g.files@.len(),
        forall|u: int| 0 <= u < g.files@.len() ==> #[trigger] g.files@[u] < tree.paths@.len(),
    ensures
        r@ == merged_text(*tree, *g, o@),
{
    let mut licenses: Vec<Vec<u8>> = Vec::new();
    let mut pragmas: Vec<Vec<u8>> = Vec::new();
    let mut i: usize = 0;
    while i < o.len()
        invariant
            i <= o@.len(),
            g.units@.len() == g.files@.len(),
            forall|x: int| 0 <= x < o@.len() ==> #[trigger] o@[x] < g.files@.len(),
            views(licenses@) == distinct_of_kind(
                all_directives(g.units@, o@.subrange(0, i as int)),
                DirectiveKind::License,
            ),
            views(pragmas@) == distinct_of_kind(
                all_directives(g.units@, o@.subrange(0, i as int)),
                DirectiveKind::Pragma,
            ),
        decreases o@.len() - i,
    {
        let ds: &Vec<Directive> = &g.units[o[i]].directives;
        let ghost before = all_directives(g.units@, o@.subrange(0, i as int));
        let mut j: usize = 0;
        assert(before + directive_views(ds@).subrange(0, 0) =~= before);
        while j < ds.len()
            invariant
                j <= ds@.len(),
                views(licenses@) == distinct_of_kind(
                    before + directive_views(ds@).subrange(0, j as int),
                    DirectiveKind::License,
                ),
                views(pragmas@) == distinct_of_kind(
                    before + directive_views(ds@).subrange(0, j as int),
                    DirectiveKind::Pragma,
                ),
            decreases ds@.len() - j,
        {
            let ghost cur = before + directive_views(ds@).subrange(0, j + 1);
            assert(cur.drop_last() =~= before + directive_views(ds@).subrange(0, j as int));
            assert(cur.last() == (ds@[j as int].kind, ds@[j as int].text@));
            let d = &ds[j];
            let ghost lic0 = licenses@;
            let ghost pra0 = pragmas@;
            match d.kind {
                DirectiveKind::License => {
                    if !contains_text(&licenses, &d.text) {
                        licenses.push(crate::scan::copy_range(&d.text, 0, d.text.len()));
                        assert(d.text@.subrange(0, d.text@.len() as int) =~= d.text@);
                        assert(views(licenses@) =~= views(lic0).push(d.text@));
                    }
                },
                DirectiveKind::Pragma => {
                    if !contains_text(&pragmas, &d.text) {
                        pragmas.push(crate::scan::copy_range(&d.text, 0, d.text.len()));
                        assert(d.text@.subrange(0, d.text@.len() as int) =~= d.text@);
                        assert(views(pragmas@) =~= views(pra0).push(d.text@));
                    }
                },
            }
            j = j + 1;
        }
        assert(o@.subrange(0, i + 1).drop_last() =~= o@.subrange(0, i as int));
        assert(directive_views(ds@).subrange(0, ds@.len() as int) =~= directive_views(ds@));
        i = i + 1;
    }
    assert(o@.subrange(0, o@.len() as int) =~= o@);
    let ghost ds_all = all_directives(g.units@, o@);
    let mut out: Vec<u8> = Vec::new();
    let ghost mut done: Seq<Seq<u8>> = seq![];
    let mut k: usize = 0;
    while k < licenses.len()
        invariant
            k <= licenses@.len(),
            out@ == join_lines(done),
            done == views(licenses@).subrange(0, k as int),
        decreases licenses@.len() - k,
    {
        push_line(&mut out, &licenses[k], Ghost(done));
        proof {
            done = done.push(licenses@[k as int]@);
        }
        k = k + 1;
        assert(done =~= views(licenses@).subrange(0, k as int));
    }
    assert(done =~= views(licenses@));
    let ghost lic_lines = done;
    k = 0;
    while k < pragmas.len()
        invariant
            k <= pragmas@.len(),
            out@ == join_lines(done),
            done == lic_lines + views(pragmas@).subrange(0, k as int),
        decreases pragmas@.len() - k,
    {
        push_line(&mut out, &pragmas[k], Ghost(done));
        proof {
            done = done.push(pragmas@[k as int]@);
        }
        k = k + 1;
        assert(done =~= lic_lines + views(pragmas@).subrange(0, k as int));
    }
    assert(done =~= lic_lines + views(pragmas@));
    let ghost head = done;
    // `// File: `
    let marker: Vec<u8> = vec![47, 47, 32, 70, 105, 108, 101, 58, 32];
    assert(marker@ =~= file_marker());
    let mut i: usize = 0;
    assert(head + sections(*tree, *g, o@.subrange(0, 0)) =~= head);
    while i < o.len()
        invariant
            i <= o@.len(),
            g.units@.len() == g.files@.len(),
            forall|x: int| 0 <= x < o@.len() ==> #[trigger] o@[x] < g.files@.len(),
            forall|u: int| 0 <= u < g.files@.len() ==> #[trigger] g.files@[u] < tree.paths@.len(),
            marker@ == file_marker(),
            out@ == join_lines(done),
            done == head + sections(*tree, *g, o@.subrange(0, i as int)),
        decreases o@.len() - i,
    {
        let u = o[i];
        let f = g.files[u];
        let line = concat(&marker, &tree.paths[f]);
        push_line(&mut out, &line, Ghost(done));
        proof {
            done = done.push(line@);
        }
        let body = &g.units[u].body;
        let ghost mid = done;
        let mut j: usize = 0;
        while j < body.len()
            invariant
                j <= body@.len(),
                out@ == join_lines(done),
                done == mid + views(body@).subrange(0, j as int),
            decreases body@.len() - j,
        {
            push_line(&mut out, &body[j], Ghost(done));
            proof {
                done = done.push(body@[j as int]@);
            }
            j = j + 1;
            assert(done =~= mid + views(body@).subrange(0, j as int));
        }
        assert(o@.subrange(0, i + 1).drop_last() =~= o@.subrange(0, i as int));
        assert(done =~= head + sections(*tree, *g, o@.subrange(0, i + 1)));
        i = i + 1;
    }
    assert(o@.subrange(0, o@.len() as int) =~= o@);
    assert(done =~= merged_lines(*tree, *g, o@));
    out
}

} // verus!
