use vstd::prelude::*;
use crate::scan::{copy_range, split_bytes, split_on, starts_with, views};

verus! {

pub open spec fn dot() -> Seq<u8> {
    seq![46]
}

pub open spec fn dot_dot() -> Seq<u8> {
    seq![46, 46]
}

/// The segments left after dropping empty and `.` segments and letting each
/// `..` cancel the segment before it (at the root it cancels nothing).
pub open spec fn fold_segments(segs: Seq<Seq<u8>>) -> Seq<Seq<u8>>
    decreases segs.len(),
{
    if segs.len() == 0 {
        seq![]
    } else {
        let st = fold_segments(segs.drop_last());
        let s = segs.last();
        if s.len() == 0 || s == dot() {
            st
        } else if s == dot_dot() {
            if st.len() > 0 {
                st.drop_last()
            } else {
                st
            }
        } else {
            st.push(s)
        }
    }
}

/// Segments written as an absolute path: each one after a `/`.
pub open spec fn join_absolute(segs: Seq<Seq<u8>>) -> Seq<u8>
    decreases segs.len(),
{
    if segs.len() == 0 {
        seq![]
    } else {
        join_absolute(segs.drop_last()) + seq![47u8] + segs.last()
    }
}

/// The absolute path that `p` names, with `.` and `..` worked out.
pub open spec fn normalize(p: Seq<u8>) -> Seq<u8> {
    join_absolute(fold_segments(split_on(p, 47)))
}

/// Everything before the last `/` of `p`.
pub open spec fn parent(p: Seq<u8>) -> Seq<u8>
    decreases p.len(),
{
    if p.len() == 0 {
        p
    } else if p.last() == 47 {
        p.drop_last()
    } else {
        parent(p.drop_last())
    }
}

/// `dir/rel`.
pub open spec fn join(dir: Seq<u8>, rel: Seq<u8>) -> Seq<u8> {
    dir + seq![47u8] + rel
}

pub fn concat(a: &Vec<u8>, b: &Vec<u8>) -> (r: Vec<u8>)
    ensures
        r@ == a@ + b@,
{
    let mut r = copy_range(a, 0, a.len());
    assert(a@.subrange(0, a@.len() as int) =~= a@);
    let mut i: usize = 0;
    while i < b.len()
        invariant
            i <= b@.len(),
            r@ == a@ + b@.subrange(0, i as int),
        decreases b@.len() - i,
    {
        r.push(b[i]);
        i = i + 1;
        assert(r@ =~= a@ + b@.subrange(0, i as int));
    }
    assert(b@.subrange(0, b@.len() as int) =~= b@);
    r
}

pub fn join_path(dir: &Vec<u8>, rel: &Vec<u8>) -> (r: Vec<u8>)
    ensures
        r@ == join(dir@, rel@),
{
    let mut d = copy_range(dir, 0, dir.len());
    assert(dir@.subrange(0, dir@.len() as int) =~= dir@);
    d.push(47);
    concat(&d, rel)
}

pub fn parent_dir(p: &Vec<u8>) -> (r: Vec<u8>)
    ensures
        r@ == parent(p@),
{
    let mut n: usize = p.len();
    assert(p@.subrange(0, n as int) =~= p@);
    while n > 0 && p[n - 1] != 47
        invariant
            n <= p@.len(),
            parent(p@) == parent(p@.subrange(0, n as int)),
        decreases n,
    {
        assert(p@.subrange(0, n as int).drop_last() =~= p@.subrange(0, n - 1));
        n = n - 1;
    }
    if n > 0 {
        assert(p@.subrange(0, n as int).drop_last() =~= p@.subrange(0, n - 1));
        copy_range(p, 0, n - 1)
    } else {
        copy_range(p, 0, 0)
    }
}

/// Works out `.` and `..` in a path and writes it in absolute form.
pub fn normalize_path(p: &Vec<u8>) -> (r: Vec<u8>)
    ensures
        r@ == normalize(p@),
{
    let segs = split_bytes(p, 47);
    let mut st: Vec<Vec<u8>> = Vec::new();
    let mut i: usize = 0;
    while i < segs.len()
        invariant
            i <= segs@.len(),
            views(segs@) == split_on(p@, 47),
            views(st@) == fold_segments(views(segs@).subrange(0, i as int)),
        decreases segs@.len() - i,
    {
        let ghost pre = views(segs@).subrange(0, i as int);
        let ghost cur = views(segs@).subrange(0, i + 1);
        assert(cur.drop_last() =~= pre);
        assert(cur.last() == segs@[i as int]@);
        let ghost st0 = st@;
        let s = &segs[i];
        if s.len() == 0 || (s.len() == 1 && s[0] == 46) {
            assert(s@.len() == 0 || s@ =~= dot());
        } else if s.len() == 2 && s[0] == 46 && s[1] == 46 {
            assert(s@ =~= dot_dot());
            if st.len() > 0 {
                st.pop();
                assert(views(st@) =~= views(st0).drop_last());
            }
        } else {
            assert(s@ != dot() && s@ != dot_dot()) by {
                if s@.len() == 1 {
                    assert(s@[0] != dot()[0]);
                }
                if s@.len() == 2 {
                    assert(s@[0] != dot_dot()[0] || s@[1] != dot_dot()[1]);
                }
            }
            st.push(copy_range(s, 0, s.len()));
            assert(s@.subrange(0, s@.len() as int) =~= s@);
            assert(views(st@) =~= views(st0).push(s@));
        }
        i = i + 1;
    }
    assert(views(segs@).subrange(0, segs@.len() as int) =~= views(segs@));
    let mut r: Vec<u8> = Vec::new();
    let mut k: usize = 0;
    while k < st.len()
        invariant
            k <= st@.len(),
            r@ == join_absolute(views(st@).subrange(0, k as int)),
        decreases st@.len() - k,
    {
        let ghost pre = views(st@).subrange(0, k as int);
        assert(views(st@).subrange(0, k + 1).drop_last() =~= pre);
        r.push(47);
        r = concat(&r, &st[k]);
        k = k + 1;
    }
    assert(views(st@).subrange(0, st@.len() as int) =~= views(st@));
    r
}

} // verus!
