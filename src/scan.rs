use vstd::prelude::*;

verus! {

/// The contents of a list of byte strings.
pub open spec fn views(v: Seq<Vec<u8>>) -> Seq<Seq<u8>> {
    v.map_values(|x: Vec<u8>| x@)
}

pub open spec fn is_blank(b: u8) -> bool {
    b == 32 || b == 9 || b == 13
}

pub open spec fn skip_blank(s: Seq<u8>) -> Seq<u8>
    decreases s.len(),
{
    if s.len() > 0 && is_blank(s[0]) {
        skip_blank(s.drop_first())
    } else {
        s
    }
}

pub open spec fn drop_trailing_blank(s: Seq<u8>) -> Seq<u8>
    decreases s.len(),
{
    if s.len() > 0 && is_blank(s.last()) {
        drop_trailing_blank(s.drop_last())
    } else {
        s
    }
}

/// A line without its leading and trailing blanks.
pub open spec fn trim(s: Seq<u8>) -> Seq<u8> {
    drop_trailing_blank(skip_blank(s))
}

/// The pieces of `s[start..]` between `sep` bytes, where the current piece
/// began at `start` and `p` is the next byte to look at. A final `sep` ends the
/// last piece and starts no new one.
pub open spec fn pieces_from(s: Seq<u8>, sep: u8, start: int, p: int) -> Seq<Seq<u8>>
    decreases s.len() - p,
{
    if p >= s.len() {
        if start < s.len() {
            seq![s.subrange(start, s.len() as int)]
        } else {
            seq![]
        }
    } else if s[p] == sep {
        seq![s.subrange(start, p)] + pieces_from(s, sep, p + 1, p + 1)
    } else {
        pieces_from(s, sep, start, p + 1)
    }
}

pub open spec fn split_on(s: Seq<u8>, sep: u8) -> Seq<Seq<u8>> {
    pieces_from(s, sep, 0, 0)
}

/// The lines of a text, without their newline bytes.
pub open spec fn lines(s: Seq<u8>) -> Seq<Seq<u8>> {
    split_on(s, 10)
}

pub fn trim_line(s: &Vec<u8>) -> (r: Vec<u8>)
    ensures
        r@ == trim(s@),
{
    let n: usize = s.len();
    let mut a: usize = 0;
    assert(s@.subrange(0, n as int) =~= s@);
    while a < n && (s[a] == 32 || s[a] == 9 || s[a] == 13)
        invariant
            a <= n == s@.len(),
            skip_blank(s@) == skip_blank(s@.subrange(a as int, n as int)),
        decreases n - a,
    {
        assert(s@.subrange(a as int, n as int).drop_first() =~= s@.subrange(a + 1, n as int));
        a = a + 1;
    }
    let ghost front = s@.subrange(a as int, n as int);
    assert(skip_blank(s@) == front);
    let mut b: usize = n;
    while b > a && (s[b - 1] == 32 || s[b - 1] == 9 || s[b - 1] == 13)
        invariant
            a <= b <= n == s@.len(),
            trim(s@) == drop_trailing_blank(s@.subrange(a as int, b as int)),
        decreases b,
    {
        assert(s@.subrange(a as int, b as int).drop_last() =~= s@.subrange(a as int, b - 1));
        b = b - 1;
    }
    let mut r: Vec<u8> = Vec::new();
    let mut i: usize = a;
    while i < b
        invariant
            a <= i <= b <= n == s@.len(),
            r@ == s@.subrange(a as int, i as int),
        decreases b - i,
    {
        r.push(s[i]);
        i = i + 1;
        assert(r@ =~= s@.subrange(a as int, i as int));
    }
    r
}

pub(crate) fn copy_range(s: &Vec<u8>, a: usize, b: usize) -> (r: Vec<u8>)
    requires
        a <= b <= s@.len(),
    ensures
        r@ == s@.subrange(a as int, b as int),
{
    let mut r: Vec<u8> = Vec::new();
    let mut i: usize = a;
    while i < b
        invariant
            a <= i <= b <= s@.len(),
            r@ == s@.subrange(a as int, i as int),
        decreases b - i,
    {
        r.push(s[i]);
        i = i + 1;
        assert(r@ =~= s@.subrange(a as int, i as int));
    }
    r
}

/// Splits a byte string at each `sep`.
pub fn split_bytes(s: &Vec<u8>, sep: u8) -> (r: Vec<Vec<u8>>)
    ensures
        views(r@) == split_on(s@, sep),
{
    let n: usize = s.len();
    let mut r: Vec<Vec<u8>> = Vec::new();
    let mut start: usize = 0;
    let mut p: usize = 0;
    while p < n
        invariant
            start <= p <= n == s@.len(),
            views(r@) + pieces_from(s@, sep, start as int, p as int) == split_on(s@, sep),
        decreases n - p,
    {
        if s[p] == sep {
            let line = copy_range(s, start, p);
            let ghost before = r@;
            r.push(line);
            proof {
                assert(views(r@) =~= views(before).push(line@));
                assert(views(r@) + pieces_from(s@, sep, (p + 1) as int, (p + 1) as int) =~= views(before)
                    + pieces_from(s@, sep, start as int, p as int));
            }
            start = p + 1;
        }
        p = p + 1;
    }
    if start < n {
        let line = copy_range(s, start, n);
        let ghost before = r@;
        r.push(line);
        assert(views(r@) =~= views(before).push(line@));
        assert(views(r@) =~= views(before) + pieces_from(s@, sep, start as int, p as int));
    } else {
        assert(views(r@) =~= views(r@) + pieces_from(s@, sep, start as int, p as int));
    }
    r
}

#[derive(PartialEq, Eq, Structural, Clone, Copy, Debug)]
pub enum DirectiveKind {
    License,
    Pragma,
}

/// A license or pragma line, trimmed; the trimmed text is what tells two
/// directives apart.
#[derive(Debug)]
pub struct Directive {
    pub kind: DirectiveKind,
    pub text: Vec<u8>,
}

impl Directive {
    pub open spec fn view(&self) -> (DirectiveKind, Seq<u8>) {
        (self.kind, self.text@)
    }
}

pub open spec fn directive_views(v: Seq<Directive>) -> Seq<(DirectiveKind, Seq<u8>)> {
    v.map_values(|d: Directive| d.view())
}

/// `SPDX-License-Identifier:`
pub open spec fn spdx_word() -> Seq<u8> {
    seq![
        83, 80, 68, 88, 45, 76, 105, 99, 101, 110, 115, 101, 45, 73, 100, 101, 110, 116, 105, 102,
        105, 101, 114, 58,
    ]
}

/// `s` without the slashes and blanks it starts with.
pub open spec fn skip_comment_lead(s: Seq<u8>) -> Seq<u8>
    decreases s.len(),
{
    if s.len() > 0 && (s[0] == 47 || is_blank(s[0])) {
        skip_comment_lead(s.drop_first())
    } else {
        s
    }
}

/// A trimmed line that is a license comment: `//`, any more slashes and
/// blanks, then `SPDX-License-Identifier:`.
pub open spec fn is_license(t: Seq<u8>) -> bool {
    starts_with(t, seq![47u8, 47u8]) && starts_with(skip_comment_lead(t), spdx_word())
}

/// `pragma`
pub open spec fn pragma_word() -> Seq<u8> {
    seq![112, 114, 97, 103, 109, 97]
}

/// `import`
pub open spec fn import_word() -> Seq<u8> {
    seq![105, 109, 112, 111, 114, 116]
}

pub open spec fn starts_with(s: Seq<u8>, pre: Seq<u8>) -> bool {
    pre.len() <= s.len() && s.subrange(0, pre.len() as int) == pre
}

/// A byte that may follow the word `import` in an import statement.
pub open spec fn opens_import(b: u8) -> bool {
    is_blank(b) || b == 34 || b == 39 || b == 123 || b == 42
}

pub open spec fn is_quote(b: u8) -> bool {
    b == 34 || b == 39
}

/// Index of the first quote at or after `i`, or the length.
pub open spec fn next_quote(t: Seq<u8>, i: int) -> int
    decreases t.len() - i,
{
    if i >= t.len() {
        t.len() as int
    } else if is_quote(t[i]) {
        i
    } else {
        next_quote(t, i + 1)
    }
}

/// Index of the first `b` at or after `i`, or the length.
pub open spec fn next_byte(t: Seq<u8>, i: int, b: u8) -> int
    decreases t.len() - i,
{
    if i >= t.len() {
        t.len() as int
    } else if t[i] == b {
        i
    } else {
        next_byte(t, i + 1, b)
    }
}

pub(crate) fn has_prefix(t: &Vec<u8>, pre: &Vec<u8>) -> (r: bool)
    ensures
        r == starts_with(t@, pre@),
{
    if pre.len() > t.len() {
        return false;
    }
    let mut i: usize = 0;
    while i < pre.len()
        invariant
            i <= pre@.len() <= t@.len(),
            forall|k: int| 0 <= k < i ==> t@[k] == pre@[k],
        decreases pre@.len() - i,
    {
        if t[i] != pre[i] {
            assert(t@.subrange(0, pre@.len() as int)[i as int] != pre@[i as int]);
            return false;
        }
        i = i + 1;
    }
    assert(t@.subrange(0, pre@.len() as int) =~= pre@);
    true
}

fn find_quote(t: &Vec<u8>, from: usize) -> (r: usize)
    requires
        from <= t@.len(),
    ensures
        r == next_quote(t@, from as int),
        from <= r <= t@.len(),
{
    let mut i: usize = from;
    while i < t.len() && t[i] != 34 && t[i] != 39
        invariant
            from <= i <= t@.len(),
            next_quote(t@, i as int) == next_quote(t@, from as int),
        decreases t@.len() - i,
    {
        i = i + 1;
    }
    i
}

pub(crate) fn find_byte(t: &Vec<u8>, from: usize, b: u8) -> (r: usize)
    requires
        from <= t@.len(),
    ensures
        r == next_byte(t@, from as int, b),
        from <= r <= t@.len(),
{
    let mut i: usize = from;
    while i < t.len() && t[i] != b
        invariant
            from <= i <= t@.len(),
            next_byte(t@, i as int, b) == next_byte(t@, from as int, b),
        decreases t@.len() - i,
    {
        i = i + 1;
    }
    i
}

/// A trimmed text that opens an import statement.
pub open spec fn is_import_start(t: Seq<u8>) -> bool {
    starts_with(t, import_word()) && t.len() > 6 && opens_import(t[6])
}

/// A trimmed line that is a pragma directive.
pub open spec fn is_pragma(t: Seq<u8>) -> bool {
    starts_with(t, pragma_word()) && t.len() > 6 && is_blank(t[6])
}

/// The path of an import statement: its first quoted string, if it has one.
pub open spec fn import_path(stmt: Seq<u8>) -> Option<Seq<u8>> {
    let a = next_quote(stmt, 0);
    if a < stmt.len() {
        let b = next_byte(stmt, a + 1, stmt[a]);
        if b < stmt.len() {
            Some(stmt.subrange(a + 1, b))
        } else {
            None
        }
    } else {
        None
    }
}

/// Where a scan stands: inside an import statement or not, the text of that
/// statement so far, and the import paths, directives and body lines found.
pub type ScanView = (bool, Seq<u8>, Seq<Seq<u8>>, Seq<(DirectiveKind, Seq<u8>)>, Seq<Seq<u8>>);

pub open spec fn start_view() -> ScanView {
    (false, seq![], seq![], seq![], seq![])
}

/// Ends the import statement `stmt`, recording its path.
pub open spec fn close_stmt(s: ScanView, stmt: Seq<u8>) -> ScanView {
    let imports = match import_path(stmt) {
        Some(x) => s.2.push(x),
        None => s.2,
    };
    (false, seq![], imports, s.3, s.4)
}

/// Takes in `line[p..]`; `whole` says that `p` is the start of the line. An
/// import statement runs from `import` to the next `;`, over as many lines as
/// it needs; a pragma runs to the next `;` of its line. What follows either
/// `;` on the line is taken in again. A license comment runs to the end of
/// the line. Other text stays in the body: a whole line as it is, a rest of a
/// line after a statement trimmed, unless blank.
pub open spec fn take_line(s: ScanView, line: Seq<u8>, p: int, whole: bool) -> ScanView
    decreases line.len() - p,
{
    if p < 0 || p > line.len() {
        s
    } else {
        let t = trim(line.subrange(p, line.len() as int));
        if s.0 || is_import_start(t) {
            let e = next_byte(line, p, 59);
            if e < line.len() {
                let s2 = close_stmt(s, s.1 + line.subrange(p, e + 1));
                if e + 1 > p {
                    take_line(s2, line, e + 1, false)
                } else {
                    s2
                }
            } else {
                (true, s.1 + line.subrange(p, line.len() as int) + seq![10u8], s.2, s.3, s.4)
            }
        } else if t.len() == 0 {
            if whole {
                (s.0, s.1, s.2, s.3, s.4.push(line))
            } else {
                s
            }
        } else if is_license(t) {
            (s.0, s.1, s.2, s.3.push((DirectiveKind::License, t)), s.4)
        } else if is_pragma(t) {
            let e = next_byte(line, p, 59);
            if e < line.len() {
                let s2 = (
                    s.0,
                    s.1,
                    s.2,
                    s.3.push((DirectiveKind::Pragma, trim(line.subrange(p, e + 1)))),
                    s.4,
                );
                if e + 1 > p {
                    take_line(s2, line, e + 1, false)
                } else {
                    s2
                }
            } else {
                (s.0, s.1, s.2, s.3.push((DirectiveKind::Pragma, t)), s.4)
            }
        } else if whole {
            (s.0, s.1, s.2, s.3, s.4.push(line))
        } else {
            (s.0, s.1, s.2, s.3, s.4.push(t))
        }
    }
}

pub open spec fn scan_lines(ls: Seq<Seq<u8>>) -> ScanView
    decreases ls.len(),
{
    if ls.len() == 0 {
        start_view()
    } else {
        take_line(scan_lines(ls.drop_last()), ls.last(), 0, true)
    }
}

/// The scan of the lines; an import statement left open at the end is
/// closed there.
pub open spec fn scanned(ls: Seq<Seq<u8>>) -> ScanView {
    let s = scan_lines(ls);
    if s.0 {
        close_stmt(s, s.1)
    } else {
        s
    }
}

/// The paths of the import statements, in order.
pub open spec fn specifiers(ls: Seq<Seq<u8>>) -> Seq<Seq<u8>> {
    scanned(ls).2
}

/// The license and pragma lines, trimmed, in order.
pub open spec fn directive_lines(ls: Seq<Seq<u8>>) -> Seq<(DirectiveKind, Seq<u8>)> {
    scanned(ls).3
}

/// What is left of the lines without import statements and directives.
pub open spec fn body_lines(ls: Seq<Seq<u8>>) -> Seq<Seq<u8>> {
    scanned(ls).4
}

struct ScanAcc {
    open: bool,
    pending: Vec<u8>,
    imports: Vec<Vec<u8>>,
    directives: Vec<Directive>,
    body: Vec<Vec<u8>>,
}

impl ScanAcc {
    spec fn view(&self) -> ScanView {
        (self.open, self.pending@, views(self.imports@), directive_views(self.directives@), views(self.body@))
    }
}

fn license_line(t: &Vec<u8>) -> (r: bool)
    ensures
        r == is_license(t@),
{
    let slashes: Vec<u8> = vec![47, 47];
    assert(slashes@ =~= seq![47u8, 47u8]);
    if !has_prefix(t, &slashes) {
        return false;
    }
    let n: usize = t.len();
    let mut a: usize = 0;
    assert(t@.subrange(0, n as int) =~= t@);
    while a < n && (t[a] == 47 || t[a] == 32 || t[a] == 9 || t[a] == 13)
        invariant
            a <= n == t@.len(),
            skip_comment_lead(t@) == skip_comment_lead(t@.subrange(a as int, n as int)),
        decreases n - a,
    {
        assert(t@.subrange(a as int, n as int).drop_first() =~= t@.subrange(a + 1, n as int));
        a = a + 1;
    }
    let rest = copy_range(t, a, n);
    // `SPDX-License-Identifier:`
    let spdx: Vec<u8> = vec![
        83, 80, 68, 88, 45, 76, 105, 99, 101, 110, 115, 101, 45, 73, 100, 101, 110, 116, 105, 102,
        105, 101, 114, 58,
    ];
    assert(spdx@ =~= spdx_word());
    has_prefix(&rest, &spdx)
}

fn close_stmt_exec(acc: &mut ScanAcc, stmt: &Vec<u8>)
    ensures
        final(acc).view() == close_stmt(old(acc).view(), stmt@),
{
    let a = find_quote(stmt, 0);
    if a < stmt.len() {
        let b = find_byte(stmt, a + 1, stmt[a]);
        if b < stmt.len() {
            let x = copy_range(stmt, a + 1, b);
            let ghost i0 = acc.imports@;
            acc.imports.push(x);
            assert(views(acc.imports@) =~= views(i0).push(x@));
        }
    }
    acc.open = false;
    acc.pending = Vec::new();
}

fn copy_all(s: &Vec<u8>) -> (r: Vec<u8>)
    ensures
        r@ == s@,
{
    let r = copy_range(s, 0, s.len());
    assert(s@.subrange(0, s@.len() as int) =~= s@);
    r
}

fn take_line_exec(acc: &mut ScanAcc, line: &Vec<u8>, p: usize, whole: bool)
    requires
        p <= line@.len(),
    ensures
        final(acc).view() == take_line(old(acc).view(), line@, p as int, whole),
    decreases line@.len() - p,
{
    let frag = copy_range(line, p, line.len());
    let t = trim_line(&frag);
    let import: Vec<u8> = vec![105, 109, 112, 111, 114, 116];
    assert(import@ =~= import_word());
    let starts_import = has_prefix(&t, &import) && t.len() > 6 && (t[6] == 32 || t[6] == 9
        || t[6] == 13 || t[6] == 34 || t[6] == 39 || t[6] == 123 || t[6] == 42);
    if acc.open || starts_import {
        let e = find_byte(line, p, 59);
        if e < line.len() {
            let part = copy_range(line, p, e + 1);
            let stmt = crate::path::concat(&acc.pending, &part);
            close_stmt_exec(acc, &stmt);
            take_line_exec(acc, line, e + 1, false);
        } else {
            let part = copy_range(line, p, line.len());
            let mut pend = crate::path::concat(&acc.pending, &part);
            pend.push(10);
            acc.pending = pend;
            acc.open = true;
        }
        return;
    }
    let ghost d0 = acc.directives@;
    let ghost b0 = acc.body@;
    if t.len() == 0 {
        if whole {
            acc.body.push(copy_all(line));
            assert(views(acc.body@) =~= views(b0).push(line@));
        }
        return;
    }
    // `pragma`
    let pragma: Vec<u8> = vec![112, 114, 97, 103, 109, 97];
    assert(pragma@ =~= pragma_word());
    if license_line(&t) {
        let ghost tv = t@;
        acc.directives.push(Directive { kind: DirectiveKind::License, text: t });
        assert(directive_views(acc.directives@) =~= directive_views(d0).push((DirectiveKind::License, tv)));
    } else if has_prefix(&t, &pragma) && t.len() > 6 && (t[6] == 32 || t[6] == 9 || t[6] == 13) {
        let e = find_byte(line, p, 59);
        if e < line.len() {
            let stmt = copy_range(line, p, e + 1);
            let text = trim_line(&stmt);
            let ghost tv = text@;
            acc.directives.push(Directive { kind: DirectiveKind::Pragma, text });
            assert(directive_views(acc.directives@) =~= directive_views(d0).push((DirectiveKind::Pragma, tv)));
            take_line_exec(acc, line, e + 1, false);
        } else {
            let ghost tv = t@;
            acc.directives.push(Directive { kind: DirectiveKind::Pragma, text: t });
            assert(directive_views(acc.directives@) =~= directive_views(d0).push((DirectiveKind::Pragma, tv)));
        }
    } else if whole {
        acc.body.push(copy_all(line));
        assert(views(acc.body@) =~= views(b0).push(line@));
    } else {
        let ghost tv = t@;
        acc.body.push(t);
        assert(views(acc.body@) =~= views(b0).push(tv));
    }
}

/// The parts of a source file that flattening needs: the paths of its import
/// statements, its directives and the rest of its lines, each in file order.
pub struct ScannedFile {
    pub imports: Vec<Vec<u8>>,
    pub directives: Vec<Directive>,
    pub body: Vec<Vec<u8>>,
}

/// Sorts a text into import statements, directives and body.
pub fn scan(text: &Vec<u8>) -> (r: ScannedFile)
    ensures
        views(r.imports@) == specifiers(lines(text@)),
        directive_views(r.directives@) == directive_lines(lines(text@)),
        views(r.body@) == body_lines(lines(text@)),
{
    let ls = split_bytes(text, 10);
    let mut acc = ScanAcc {
        open: false,
        pending: Vec::new(),
        imports: Vec::new(),
        directives: Vec::new(),
        body: Vec::new(),
    };
    assert(acc.view() =~= start_view());
    let mut i: usize = 0;
    while i < ls.len()
        invariant
            i <= ls@.len(),
            views(ls@) == lines(text@),
            acc.view() == scan_lines(views(ls@).subrange(0, i as int)),
        decreases ls@.len() - i,
    {
        let ghost cur = views(ls@).subrange(0, i + 1);
        assert(cur.drop_last() =~= views(ls@).subrange(0, i as int));
        assert(cur.last() == ls@[i as int]@);
        take_line_exec(&mut acc, &ls[i], 0, true);
        i = i + 1;
    }
    assert(views(ls@).subrange(0, ls@.len() as int) =~= views(ls@));
    if acc.open {
        let stmt = copy_all(&acc.pending);
        close_stmt_exec(&mut acc, &stmt);
    }
    ScannedFile { imports: acc.imports, directives: acc.directives, body: acc.body }
}

} // verus!
