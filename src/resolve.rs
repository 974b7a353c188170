use vstd::prelude::*;
use crate::path::{concat, join, join_path, normalize, normalize_path, parent, parent_dir};
use crate::scan::{copy_range, has_prefix, starts_with, views};

verus! {

/// Imports that start with `prefix` are looked up under `target` instead.
pub struct Remapping {
    pub prefix: Vec<u8>,
    pub target: Vec<u8>,
}

/// Where imports are looked for: the project's source root, its remappings
/// in the order they were configured, and its library directories.
pub struct Config {
    pub source_root: Vec<u8>,
    pub remappings: Vec<Remapping>,
    pub lib_paths: Vec<Vec<u8>>,
}

#[derive(PartialEq, Eq, Clone, Debug)]
pub enum ResolutionError {
    /// Every candidate path of the specifier is known to be missing.
    NotFound,
    /// The path is the first candidate that is not known to be a file and not
    /// known to be missing: whether it exists decides the resolution.
    Unlisted(Vec<u8>),
}

/// A remapping written `prefix=target`: split at the first `=`, with a
/// non-empty prefix.
pub open spec fn remapping_text(s: Seq<u8>) -> Option<(Seq<u8>, Seq<u8>)> {
    let e = crate::scan::next_byte(s, 0, 61);
    if e < s.len() && e > 0 {
        Some((s.subrange(0, e), s.subrange(e + 1, s.len() as int)))
    } else {
        None
    }
}

/// Reads a remapping written `prefix=target`.
pub fn parse_remapping(s: &Vec<u8>) -> (r: Option<Remapping>)
    ensures
        match r {
            Some(m) => remapping_text(s@) == Some((m.prefix@, m.target@)),
            None => remapping_text(s@) is None,
        },
{
    let e = crate::scan::find_byte(s, 0, 61);
    if e < s.len() && e > 0 {
        Some(Remapping { prefix: copy_range(s, 0, e), target: copy_range(s, e + 1, s.len()) })
    } else {
        None
    }
}

pub open spec fn remap_views(rs: Seq<Remapping>) -> Seq<(Seq<u8>, Seq<u8>)> {
    rs.map_values(|r: Remapping| (r.prefix@, r.target@))
}

/// Index of the remapping used for `s`: the one with the longest prefix that
/// `s` starts with, the first of those if several are as long; -1 if none.
pub open spec fn best_remap(rs: Seq<(Seq<u8>, Seq<u8>)>, s: Seq<u8>) -> int
    decreases rs.len(),
{
    if rs.len() == 0 {
        -1
    } else {
        let b = best_remap(rs.drop_last(), s);
        if starts_with(s, rs.last().0) && (b < 0 || rs.last().0.len() > rs[b].0.len()) {
            rs.len() - 1
        } else {
            b
        }
    }
}

pub open spec fn is_relative(s: Seq<u8>) -> bool {
    starts_with(s, seq![46u8, 47u8]) || starts_with(s, seq![46u8, 46u8, 47u8])
}

/// The paths where the import `s` of the file `importer` may be found, in
/// the order they are tried.
pub open spec fn candidates(
    s: Seq<u8>,
    importer: Seq<u8>,
    root: Seq<u8>,
    rs: Seq<(Seq<u8>, Seq<u8>)>,
    libs: Seq<Seq<u8>>,
) -> Seq<Seq<u8>> {
    let b = best_remap(rs, s);
    if b >= 0 {
        seq![rs[b].1 + s.subrange(rs[b].0.len() as int, s.len() as int)]
    } else if is_relative(s) {
        seq![join(parent(importer), s)]
    } else if s.len() > 0 && s[0] == 47 {
        seq![s]
    } else {
        seq![join(root, s)] + Seq::new(libs.len(), |i: int| join(libs[i], s))
    }
}

/// The first candidate that, normalized, is one of `files`, where every
/// candidate before it is known to be `missing`.
pub open spec fn first_known(files: Seq<Seq<u8>>, missing: Seq<Seq<u8>>, cands: Seq<Seq<u8>>) -> Option<
    Seq<u8>,
>
    decreases cands.len(),
{
    if cands.len() == 0 {
        None
    } else if files.contains(normalize(cands[0])) {
        Some(normalize(cands[0]))
    } else if missing.contains(normalize(cands[0])) {
        first_known(files, missing, cands.drop_first())
    } else {
        None
    }
}

/// The first candidate, normalized, that is neither one of `files` nor known
/// to be `missing`, where every candidate before it is known to be missing.
pub open spec fn first_unknown(files: Seq<Seq<u8>>, missing: Seq<Seq<u8>>, cands: Seq<Seq<u8>>) -> Option<
    Seq<u8>,
>
    decreases cands.len(),
{
    if cands.len() == 0 {
        None
    } else if files.contains(normalize(cands[0])) {
        None
    } else if missing.contains(normalize(cands[0])) {
        first_unknown(files, missing, cands.drop_first())
    } else {
        Some(normalize(cands[0]))
    }
}

/// The file that the import `s` of `importer` names under `cfg`, as a path:
/// the first candidate that exists, found when every earlier one is known to
/// be missing.
pub open spec fn resolved(
    files: Seq<Seq<u8>>,
    missing: Seq<Seq<u8>>,
    s: Seq<u8>,
    importer: Seq<u8>,
    cfg: Config,
) -> Option<Seq<u8>> {
    first_known(
        files,
        missing,
        candidates(s, importer, cfg.source_root@, remap_views(cfg.remappings@), views(cfg.lib_paths@)),
    )
}

/// The candidate of the import `s` of `importer` that must be looked up
/// before the import can be resolved, if any.
pub open spec fn unlisted(
    files: Seq<Seq<u8>>,
    missing: Seq<Seq<u8>>,
    s: Seq<u8>,
    importer: Seq<u8>,
    cfg: Config,
) -> Option<Seq<u8>> {
    first_unknown(
        files,
        missing,
        candidates(s, importer, cfg.source_root@, remap_views(cfg.remappings@), views(cfg.lib_paths@)),
    )
}

/// A remapping is used only for a specifier that starts with its prefix, and
/// no matching remapping has a longer prefix than the one used; none is used
/// only where none matches.
pub proof fn lemma_longest_remapping_wins(rs: Seq<(Seq<u8>, Seq<u8>)>, s: Seq<u8>)
    ensures
        best_remap(rs, s) >= 0 ==> {
            &&& best_remap(rs, s) < rs.len()
            &&& starts_with(s, rs[best_remap(rs, s)].0)
            &&& forall|i: int|
                0 <= i < rs.len() && starts_with(s, #[trigger] rs[i].0) ==> rs[i].0.len() <= rs[best_remap(
                    rs,
                    s,
                )].0.len()
        },
        best_remap(rs, s) < 0 ==> best_remap(rs, s) == -1 && forall|i: int|
            0 <= i < rs.len() ==> !starts_with(s, #[trigger] rs[i].0),
    decreases rs.len(),
{
    if rs.len() > 0 {
        let pre = rs.drop_last();
        lemma_longest_remapping_wins(pre, s);
        assert forall|i: int| 0 <= i < rs.len() - 1 implies #[trigger] rs[i] == pre[i] by {}
    }
}

/// Index of the first `p` in `fs` at or after `k`, or the length.
pub open spec fn first_path(fs: Seq<Seq<u8>>, p: Seq<u8>, k: int) -> int
    decreases fs.len() - k,
{
    if k >= fs.len() {
        k
    } else if fs[k] == p {
        k
    } else {
        first_path(fs, p, k + 1)
    }
}

pub fn bytes_eq(a: &Vec<u8>, b: &Vec<u8>) -> (r: bool)
    ensures
        r == (a@ == b@),
{
    if a.len() != b.len() {
        return false;
    }
    let mut i: usize = 0;
    while i < a.len()
        invariant
            i <= a@.len() == b@.len(),
            forall|k: int| 0 <= k < i ==> a@[k] == b@[k],
        decreases a@.len() - i,
    {
        if a[i] != b[i] {
            return false;
        }
        i = i + 1;
    }
    assert(a@ =~= b@);
    true
}

/// Position of the path `p` among `files`.
pub fn find_path(files: &Vec<Vec<u8>>, p: &Vec<u8>) -> (r: Option<usize>)
    ensures
        match r {
            Some(i) => i < files@.len() && files@[i as int]@ == p@ && i == first_path(views(files@), p@, 0),
            None => !views(files@).contains(p@),
        },
{
    let mut i: usize = 0;
    while i < files.len()
        invariant
            i <= files@.len(),
            first_path(views(files@), p@, i as int) == first_path(views(files@), p@, 0),
            forall|k: int| 0 <= k < i ==> files@[k]@ != p@,
        decreases files@.len() - i,
    {
        assert(views(files@)[i as int] == files@[i as int]@);
        if bytes_eq(&files[i], p) {
            return Some(i);
        }
        i = i + 1;
    }
    proof {
        if views(files@).contains(p@) {
            let k = choose|k: int| 0 <= k < views(files@).len() && views(files@)[k] == p@;
            assert(files@[k]@ == p@);
        }
    }
    None
}

/// Index of the remapping that applies to the specifier `s`, if any.
pub fn pick_remapping(rs: &Vec<Remapping>, s: &Vec<u8>) -> (r: Option<usize>)
    ensures
        match r {
            Some(i) => best_remap(remap_views(rs@), s@) == i as int,
            None => best_remap(remap_views(rs@), s@) == -1,
        },
{
    let mut best: Option<usize> = None;
    let mut i: usize = 0;
    while i < rs.len()
        invariant
            i <= rs@.len(),
            match best {
                Some(b) => b < i && best_remap(remap_views(rs@).subrange(0, i as int), s@) == b as int,
                None => best_remap(remap_views(rs@).subrange(0, i as int), s@) == -1,
            },
        decreases rs@.len() - i,
    {
        let ghost cur = remap_views(rs@).subrange(0, i + 1);
        assert(cur.drop_last() =~= remap_views(rs@).subrange(0, i as int));
        assert(cur.last() == (rs@[i as int].prefix@, rs@[i as int].target@));
        if has_prefix(s, &rs[i].prefix) {
            match best {
                Some(b) => {
                    assert(cur[b as int] == (rs@[b as int].prefix@, rs@[b as int].target@));
                    if rs[i].prefix.len() > rs[b].prefix.len() {
                        best = Some(i);
                    }
                },
                None => {
                    best = Some(i);
                },
            }
        }
        i = i + 1;
    }
    assert(remap_views(rs@).subrange(0, rs@.len() as int) =~= remap_views(rs@));
    best
}

/// The candidate paths of the import `s` of `importer`, in order.
pub fn candidate_paths(s: &Vec<u8>, importer: &Vec<u8>, cfg: &Config) -> (r: Vec<Vec<u8>>)
    ensures
        views(r@) == candidates(
            s@,
            importer@,
            cfg.source_root@,
            remap_views(cfg.remappings@),
            views(cfg.lib_paths@),
        ),
{
    let mut r: Vec<Vec<u8>> = Vec::new();
    match pick_remapping(&cfg.remappings, s) {
        Some(b) => {
            proof {
                lemma_longest_remapping_wins(remap_views(cfg.remappings@), s@);
            }
            let m = &cfg.remappings[b];
            let rest = copy_range(s, m.prefix.len(), s.len());
            r.push(concat(&m.target, &rest));
            assert(views(r@) =~= candidates(
                s@,
                importer@,
                cfg.source_root@,
                remap_views(cfg.remappings@),
                views(cfg.lib_paths@),
            ));
        },
        None => {
            let rel1: Vec<u8> = vec![46, 47];
            let rel2: Vec<u8> = vec![46, 46, 47];
            assert(rel1@ =~= seq![46u8, 47u8]);
            assert(rel2@ =~= seq![46u8, 46u8, 47u8]);
            if has_prefix(s, &rel1) || has_prefix(s, &rel2) {
                let dir = parent_dir(importer);
                r.push(join_path(&dir, s));
                assert(views(r@) =~= candidates(
                    s@,
                    importer@,
                    cfg.source_root@,
                    remap_views(cfg.remappings@),
                    views(cfg.lib_paths@),
                ));
            } else if s.len() > 0 && s[0] == 47 {
                r.push(copy_range(s, 0, s.len()));
                assert(s@.subrange(0, s@.len() as int) =~= s@);
                assert(views(r@) =~= candidates(
                    s@,
                    importer@,
                    cfg.source_root@,
                    remap_views(cfg.remappings@),
                    views(cfg.lib_paths@),
                ));
            } else {
                r.push(join_path(&cfg.source_root, s));
                let ghost libs = views(cfg.lib_paths@);
                let mut i: usize = 0;
                while i < cfg.lib_paths.len()
                    invariant
                        i <= libs.len(),
                        libs == views(cfg.lib_paths@),
                        views(r@) == seq![join(cfg.source_root@, s@)] + Seq::new(
                            i as nat,
                            |k: int| join(libs[k], s@),
                        ),
                    decreases libs.len() - i,
                {
                    let ghost r0 = views(r@);
                    let q = join_path(&cfg.lib_paths[i], s);
                    r.push(q);
                    assert(views(r@) =~= r0.push(q@));
                    assert(libs[i as int] == cfg.lib_paths@[i as int]@);
                    i = i + 1;
                    assert(views(r@) =~= seq![join(cfg.source_root@, s@)] + Seq::new(
                        i as nat,
                        |k: int| join(libs[k], s@),
                    ));
                }
            }
        },
    }
    r
}

/// Finds the file that the import `s` of `importer` names: the first
/// candidate path that, normalized, is among `files`, where each earlier one
/// is among `missing`. Reports the first candidate that is in neither list,
/// or that every candidate is missing.
pub fn resolve(
    s: &Vec<u8>,
    importer: &Vec<u8>,
    cfg: &Config,
    files: &Vec<Vec<u8>>,
    missing: &Vec<Vec<u8>>,
) -> (r: Result<usize, ResolutionError>)
    ensures
        match r {
            Ok(i) => i < files@.len() && resolved(views(files@), views(missing@), s@, importer@, *cfg)
                == Some(files@[i as int]@) && i == first_path(views(files@), files@[i as int]@, 0),
            Err(ResolutionError::NotFound) => resolved(views(files@), views(missing@), s@, importer@, *cfg)
                is None && unlisted(views(files@), views(missing@), s@, importer@, *cfg) is None,
            Err(ResolutionError::Unlisted(p)) => resolved(views(files@), views(missing@), s@, importer@, *cfg)
                is None && unlisted(views(files@), views(missing@), s@, importer@, *cfg) == Some(p@),
        },
{
    let cands = candidate_paths(s, importer, cfg);
    let ghost all = views(cands@);
    let ghost fv = views(files@);
    let ghost mv = views(missing@);
    let mut i: usize = 0;
    assert(all.subrange(0, all.len() as int) =~= all);
    while i < cands.len()
        invariant
            i <= cands@.len(),
            all == views(cands@),
            fv == views(files@),
            mv == views(missing@),
            all == candidates(
                s@,
                importer@,
                cfg.source_root@,
                remap_views(cfg.remappings@),
                views(cfg.lib_paths@),
            ),
            first_known(fv, mv, all) == first_known(fv, mv, all.subrange(i as int, all.len() as int)),
            first_unknown(fv, mv, all) == first_unknown(fv, mv, all.subrange(i as int, all.len() as int)),
        decreases cands@.len() - i,
    {
        let ghost rest = all.subrange(i as int, all.len() as int);
        assert(rest.drop_first() =~= all.subrange(i + 1, all.len() as int));
        assert(rest[0] == all[i as int]);
        assert(all[i as int] == cands@[i as int]@);
        let p = normalize_path(&cands[i]);
        match find_path(files, &p) {
            Some(k) => {
                assert(fv[k as int] == p@);
                assert(fv.contains(normalize(all[i as int])));
                return Ok(k);
            },
            None => {},
        }
        match find_path(missing, &p) {
            Some(k) => {
                assert(mv[k as int] == p@);
                assert(mv.contains(normalize(all[i as int])));
            },
            None => {
                return Err(ResolutionError::Unlisted(p));
            },
        }
        i = i + 1;
    }
    Err(ResolutionError::NotFound)
}

} // verus!
