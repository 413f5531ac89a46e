//! Path confinement: a path given to a tool must stay inside the current
//! working directory. The paths are compared component by component (Unix
//! paths); the caller resolves them first, following symbolic links, so
//! that what is compared is where the path really leads.
use vstd::prelude::*;
use crate::text::{chars_eq, chars_of, slice_vec, string_of};

verus! {

/// Why a path was refused.
#[derive(Debug)]
pub enum SecurityError {
    /// The path leaves the current directory.
    Unauthorized,
    /// The path is the empty string.
    EmptyPath,
    /// A `..` points above the start of the path.
    NormalizationError,
    /// The path could not be made absolute, with the system's message.
    Io(String),
}

impl SecurityError {
    /// The text that describes the error.
    pub fn message(&self) -> (r: String)
        ensures
            r@ == match self {
                SecurityError::Unauthorized => "The request was not authorized"@,
                SecurityError::EmptyPath => "The given Path was an empty String"@,
                SecurityError::NormalizationError => "parent reference `..` points outside of base directory"@,
                SecurityError::Io(m) => m@,
            },
    {
        match self {
            SecurityError::Unauthorized => string_of(&chars_of("The request was not authorized")),
            SecurityError::EmptyPath => string_of(&chars_of("The given Path was an empty String")),
            SecurityError::NormalizationError => string_of(
                &chars_of("parent reference `..` points outside of base directory"),
            ),
            SecurityError::Io(m) => string_of(&chars_of(m.as_str())),
        }
    }
}

/// A component of a path.
pub enum Comp {
    Root,
    Cur,
    Parent,
    Normal(Seq<char>),
}

/// A component of a path, as held at run time.
pub enum PathComp {
    Root,
    Cur,
    Parent,
    Normal(Vec<char>),
}

impl View for PathComp {
    type V = Comp;

    open spec fn view(&self) -> Comp {
        match self {
            PathComp::Root => Comp::Root,
            PathComp::Cur => Comp::Cur,
            PathComp::Parent => Comp::Parent,
            PathComp::Normal(n) => Comp::Normal(n@),
        }
    }
}

pub open spec fn comps_view(v: Seq<PathComp>) -> Seq<Comp> {
    v.map_values(|c: PathComp| c@)
}

/// The component that a piece between separators stands for: none for an
/// empty piece or `.`.
pub open spec fn piece_comp(p: Seq<char>) -> Seq<Comp> {
    if p.len() == 0 || p == seq!['.'] {
        seq![]
    } else if p == seq!['.', '.'] {
        seq![Comp::Parent]
    } else {
        seq![Comp::Normal(p)]
    }
}

/// The components of the pieces of `s[start..]` separated by `/`, scanning at `i`.
pub open spec fn comps_from(s: Seq<char>, start: int, i: int) -> Seq<Comp>
    decreases s.len() - i,
{
    if i >= s.len() {
        piece_comp(s.subrange(start, s.len() as int))
    } else if s[i] == '/' {
        piece_comp(s.subrange(start, i)) + comps_from(s, i + 1, i + 1)
    } else {
        comps_from(s, start, i + 1)
    }
}

/// A relative path that opens with `.` as a component of its own.
pub open spec fn starts_cur(s: Seq<char>) -> bool {
    s.len() > 0 && s[0] == '.' && (s.len() == 1 || s[1] == '/')
}

/// `Path::components`: a root for a leading `/`, a leading `.` kept, then
/// the pieces between separators, with empty pieces and `.` dropped.
pub open spec fn components(s: Seq<char>) -> Seq<Comp> {
    if s.len() > 0 && s[0] == '/' {
        seq![Comp::Root] + comps_from(s, 1, 1)
    } else if starts_cur(s) {
        seq![Comp::Cur] + comps_from(s, 0, 0)
    } else {
        comps_from(s, 0, 0)
    }
}

/// The names left after applying `rest` to `names`; `None` when a `..`
/// finds no name to remove.
pub open spec fn resolve(names: Seq<Seq<char>>, rest: Seq<Comp>) -> Option<Seq<Seq<char>>>
    decreases rest.len(),
{
    if rest.len() == 0 {
        Some(names)
    } else {
        match rest[0] {
            Comp::Parent => if names.len() == 0 {
                None
            } else {
                resolve(names.drop_last(), rest.drop_first())
            },
            Comp::Normal(n) => resolve(names.push(n), rest.drop_first()),
            _ => resolve(names, rest.drop_first()),
        }
    }
}

/// How a normalized path begins.
pub enum Start {
    Root,
    Cur,
    Bare,
}

/// `Path::normalize_lexically`: how the path begins and its names, with
/// each `..` removing the name before it; `None` when a `..` would leave
/// the start of the path.
pub open spec fn normalize(comps: Seq<Comp>) -> Option<(Start, Seq<Seq<char>>)> {
    if comps.len() == 0 {
        Some((Start::Bare, seq![]))
    } else {
        match comps[0] {
            Comp::Parent => None,
            Comp::Root => match resolve(seq![], comps.drop_first()) {
                Some(n) => Some((Start::Root, n)),
                None => None,
            },
            Comp::Cur => match resolve(seq![], comps.drop_first()) {
                Some(n) => Some((Start::Cur, n)),
                None => None,
            },
            Comp::Normal(_) => match resolve(seq![], comps) {
                Some(n) => Some((Start::Bare, n)),
                None => None,
            },
        }
    }
}

/// The names as components.
pub open spec fn as_normals(names: Seq<Seq<char>>) -> Seq<Comp> {
    names.map_values(|n: Seq<char>| Comp::Normal(n))
}

/// `p` begins with the components of `base`.
pub open spec fn has_prefix(p: Seq<Comp>, base: Seq<Comp>) -> bool {
    base.len() <= p.len() && p.take(base.len() as int) == base
}

/// The verdict on a path.
pub enum Verdict {
    Inside,
    Outside,
    Empty,
    AboveStart,
    NothingToResolve,
}

/// The verdict on `path` for the working directory `cwd`: refused when
/// empty, when a `..` leaves the start of the path, when nothing is left to
/// make absolute, and when an absolute path does not begin with the
/// components of `cwd`. A relative path is joined to `cwd`, so it stays in.
pub open spec fn inside_spec(path: Seq<char>, cwd: Seq<char>) -> Verdict {
    if path.len() == 0 {
        Verdict::Empty
    } else {
        match normalize(components(path)) {
            None => Verdict::AboveStart,
            Some((start, names)) => match start {
                Start::Root => if has_prefix(seq![Comp::Root] + as_normals(names), components(cwd)) {
                    Verdict::Inside
                } else {
                    Verdict::Outside
                },
                Start::Bare => if names.len() == 0 {
                    Verdict::NothingToResolve
                } else {
                    Verdict::Inside
                },
                Start::Cur => Verdict::Inside,
            },
        }
    }
}

/// The message of the error that making an empty path absolute raises.
pub open spec fn empty_absolute_message() -> Seq<char> {
    "cannot make an empty path absolute"@
}

/// What `is_inside_cwd` answers for a verdict.
pub open spec fn answers(v: Verdict, r: Result<(), SecurityError>) -> bool {
    match v {
        Verdict::Inside => r is Ok,
        Verdict::Outside => r matches Err(SecurityError::Unauthorized),
        Verdict::Empty => r matches Err(SecurityError::EmptyPath),
        Verdict::AboveStart => r matches Err(SecurityError::NormalizationError),
        Verdict::NothingToResolve => r matches Err(SecurityError::Io(m)) && m@ == empty_absolute_message(),
    }
}


fn push_piece(out: &mut Vec<PathComp>, s: &[char], lo: usize, hi: usize)
    requires
        lo <= hi <= s.len(),
    ensures
        comps_view(final(out)@) == comps_view(old(out)@) + piece_comp(s@.subrange(lo as int, hi as int)),
{
    let ghost before = comps_view(out@);
    let ghost p = s@.subrange(lo as int, hi as int);
    if hi == lo || (hi == lo + 1 && s[lo] == '.') {
        assert(hi == lo + 1 ==> p =~= seq!['.']);
        assert(comps_view(out@) =~= before + piece_comp(p));
    } else if hi - lo == 2 && s[lo] == '.' && s[lo + 1] == '.' {
        assert(p =~= seq!['.', '.']);
        out.push(PathComp::Parent);
        assert(comps_view(out@) =~= before + piece_comp(p));
    } else {
        assert(!(p == seq!['.'])) by {
            if p == seq!['.'] {
                assert(p.len() == 1);
                assert(p[0] == s@[lo as int]);
            }
        }
        assert(!(p == seq!['.', '.'])) by {
            if p == seq!['.', '.'] {
                assert(p.len() == 2);
                assert(p[0] == s@[lo as int]);
                assert(p[1] == s@[lo + 1]);
            }
        }
        out.push(PathComp::Normal(slice_vec(s, lo, hi)));
        assert(comps_view(out@) =~= before + piece_comp(p));
    }
}

/// `Path::components` of a Unix path.
pub fn components_exec(s: &[char]) -> (r: Vec<PathComp>)
    ensures
        comps_view(r@) == components(s@),
{
    let mut out: Vec<PathComp> = Vec::new();
    let mut i: usize = 0;
    if s.len() > 0 && s[0] == '/' {
        out.push(PathComp::Root);
        i = 1;
    } else if s.len() > 0 && s[0] == '.' && (s.len() == 1 || s[1] == '/') {
        out.push(PathComp::Cur);
    }
    let mut start = i;
    assert(comps_view(out@) + comps_from(s@, start as int, i as int) == components(s@));
    while i < s.len()
        invariant
            start <= i <= s.len(),
            comps_view(out@) + comps_from(s@, start as int, i as int) == components(s@),
        decreases s.len() - i,
    {
        if s[i] == '/' {
            let ghost before = comps_view(out@);
            push_piece(&mut out, s, start, i);
            assert(comps_from(s@, start as int, i as int) == piece_comp(s@.subrange(start as int, i as int))
                + comps_from(s@, i + 1, i + 1));
            i = i + 1;
            start = i;
        } else {
            i = i + 1;
        }
    }
    push_piece(&mut out, s, start, s.len());
    out
}

/// How a normalized path begins, as held at run time.
pub enum StartKind {
    Root,
    Cur,
    Bare,
}

impl View for StartKind {
    type V = Start;

    open spec fn view(&self) -> Start {
        match self {
            StartKind::Root => Start::Root,
            StartKind::Cur => Start::Cur,
            StartKind::Bare => Start::Bare,
        }
    }
}

pub open spec fn names_view(v: Seq<Vec<char>>) -> Seq<Seq<char>> {
    v.map_values(|n: Vec<char>| n@)
}

fn resolve_exec(comps: &Vec<PathComp>, from: usize) -> (r: Option<Vec<Vec<char>>>)
    requires
        from <= comps.len(),
    ensures
        match resolve(seq![], comps_view(comps@).skip(from as int)) {
            Some(n) => r matches Some(v) && names_view(v@) == n,
            None => r is None,
        },
{
    let ghost cv = comps_view(comps@);
    let mut names: Vec<Vec<char>> = Vec::new();
    let mut i = from;
    assert(names_view(names@) =~= Seq::<Seq<char>>::empty());
    while i < comps.len()
        invariant
            from <= i <= comps.len(),
            cv == comps_view(comps@),
            resolve(seq![], cv.skip(from as int)) == resolve(names_view(names@), cv.skip(i as int)),
        decreases comps.len() - i,
    {
        assert(cv.skip(i as int)[0] == comps@[i as int]@);
        assert(cv.skip(i as int).drop_first() == cv.skip(i + 1));
        let ghost before = names_view(names@);
        match &comps[i] {
            PathComp::Parent => {
                if names.len() == 0 {
                    return None;
                }
                names.pop();
                assert(names_view(names@) =~= before.drop_last());
            },
            PathComp::Normal(n) => {
                names.push(slice_vec(n, 0, n.len()));
                assert(n@.subrange(0, n@.len() as int) == n@);
                assert(names_view(names@) =~= before.push(n@));
            },
            _ => {},
        }
        i = i + 1;
    }
    assert(cv.skip(comps.len() as int) =~= Seq::<Comp>::empty());
    Some(names)
}

/// `Path::normalize_lexically` over components.
pub fn normalize_exec(comps: &Vec<PathComp>) -> (r: Option<(StartKind, Vec<Vec<char>>)>)
    ensures
        match normalize(comps_view(comps@)) {
            Some((st, n)) => r matches Some((k, v)) && k@ == st && names_view(v@) == n,
            None => r is None,
        },
{
    let ghost cv = comps_view(comps@);
    if comps.len() == 0 {
        let v: Vec<Vec<char>> = Vec::new();
        assert(names_view(v@) =~= Seq::<Seq<char>>::empty());
        return Some((StartKind::Bare, v));
    }
    assert(cv[0] == comps@[0]@);
    assert(cv.drop_first() == cv.skip(1));
    assert(cv.skip(0) == cv);
    match &comps[0] {
        PathComp::Parent => None,
        PathComp::Root => match resolve_exec(comps, 1) {
            Some(v) => Some((StartKind::Root, v)),
            None => None,
        },
        PathComp::Cur => match resolve_exec(comps, 1) {
            Some(v) => Some((StartKind::Cur, v)),
            None => None,
        },
        PathComp::Normal(_) => match resolve_exec(comps, 0) {
            Some(v) => Some((StartKind::Bare, v)),
            None => None,
        },
    }
}

fn comp_eq(a: &PathComp, b: &PathComp) -> (r: bool)
    ensures
        r == (a@ == b@),
{
    match (a, b) {
        (PathComp::Root, PathComp::Root) => true,
        (PathComp::Cur, PathComp::Cur) => true,
        (PathComp::Parent, PathComp::Parent) => true,
        (PathComp::Normal(x), PathComp::Normal(y)) => chars_eq(x, y),
        _ => false,
    }
}

/// A path as the file system resolves it: absolute, with every symbolic link
/// followed, so that no `..` is left in it (what `canonicalize` gives).
pub open spec fn is_resolved(p: Seq<char>) -> bool {
    &&& p.len() > 0
    &&& p[0] == '/'
    &&& forall|k: int| 0 <= k < components(p).len() ==> #[trigger] components(p)[k] != Comp::Parent
}

/// The pieces after the root are names or `..`.
proof fn lemma_comps_from_kinds(s: Seq<char>, start: int, i: int)
    requires
        0 <= start <= i <= s.len(),
    ensures
        forall|k: int|
            0 <= k < comps_from(s, start, i).len() ==> (#[trigger] comps_from(s, start, i)[k] is Normal
                || comps_from(s, start, i)[k] is Parent),
    decreases s.len() - i,
{
    if i < s.len() {
        if s[i] == '/' {
            lemma_comps_from_kinds(s, i + 1, i + 1);
            let a = piece_comp(s.subrange(start, i));
            let b = comps_from(s, i + 1, i + 1);
            assert forall|k: int| 0 <= k < (a + b).len() implies ((a + b)[k] is Normal || (a + b)[k] is Parent) by {
                if k >= a.len() {
                    assert((a + b)[k] == b[k - a.len()]);
                }
            }
        } else {
            lemma_comps_from_kinds(s, start, i + 1);
        }
    }
}

/// Names alone resolve to themselves, after what was there.
proof fn lemma_resolve_names(names: Seq<Seq<char>>, rest: Seq<Comp>)
    requires
        forall|k: int| 0 <= k < rest.len() ==> #[trigger] rest[k] is Normal,
    ensures
        resolve(names, rest) matches Some(n) && as_normals(n) == as_normals(names) + rest,
    decreases rest.len(),
{
    if rest.len() == 0 {
        assert(as_normals(names) + rest =~= as_normals(names));
    } else {
        assert(rest[0] is Normal);
        let x = rest[0]->Normal_0;
        assert forall|k: int| 0 <= k < rest.drop_first().len() implies #[trigger] rest.drop_first()[k] is Normal by {
            assert(rest.drop_first()[k] == rest[k + 1]);
        }
        lemma_resolve_names(names.push(x), rest.drop_first());
        assert(as_normals(names.push(x)) =~= as_normals(names).push(Comp::Normal(x)));
        assert(as_normals(names).push(Comp::Normal(x)) + rest.drop_first() =~= as_normals(names) + rest);
    }
}

/// A resolved path reads as its root and names, unchanged by normalizing.
proof fn lemma_resolved_normal(p: Seq<char>)
    requires
        is_resolved(p),
    ensures
        normalize(components(p)) matches Some((Start::Root, n)) && seq![Comp::Root] + as_normals(n)
            == components(p),
{
    let c = components(p);
    let rest = comps_from(p, 1, 1);
    assert(c == seq![Comp::Root] + rest);
    lemma_comps_from_kinds(p, 1, 1);
    assert forall|k: int| 0 <= k < rest.len() implies #[trigger] rest[k] is Normal by {
        assert(c[k + 1] == rest[k]);
        assert(c[k + 1] != Comp::Parent);
    }
    assert(c.drop_first() =~= rest);
    lemma_resolve_names(seq![], rest);
    assert(as_normals(Seq::<Seq<char>>::empty()) =~= Seq::<Comp>::empty());
    assert(Seq::<Comp>::empty() + rest =~= rest);
}

/// Validates that `path` stays inside `cwd`, the current working directory.
/// Both are to be given as the file system resolves them (see
/// `is_resolved`): the check compares components and follows no link, so a
/// symbolic link in an unresolved path would go unseen. For a resolved path
/// the answer is `Ok` exactly when it begins with the components of `cwd`,
/// and `Unauthorized` otherwise.
pub fn is_inside_cwd(path: &str, cwd: &str) -> (r: Result<(), SecurityError>)
    ensures
        answers(inside_spec(path@, cwd@), r),
        is_resolved(path@) ==> (r is Ok <==> has_prefix(components(path@), components(cwd@))),
        is_resolved(path@) && !(r is Ok) ==> r matches Err(SecurityError::Unauthorized),
{
    proof {
        if is_resolved(path@) {
            lemma_resolved_normal(path@);
        }
    }
    let p = chars_of(path);
    if p.len() == 0 {
        return Err(SecurityError::EmptyPath);
    }
    let comps = components_exec(&p);
    let (start, names) = match normalize_exec(&comps) {
        Some(x) => x,
        None => return Err(SecurityError::NormalizationError),
    };
    match start {
        StartKind::Cur => Ok(()),
        StartKind::Bare => {
            if names.len() == 0 {
                Err(SecurityError::Io(string_of(&chars_of("cannot make an empty path absolute"))))
            } else {
                Ok(())
            }
        },
        StartKind::Root => {
            let mut full: Vec<PathComp> = Vec::new();
            full.push(PathComp::Root);
            let mut i: usize = 0;
            let ghost nv = names_view(names@);
            assert(comps_view(full@) =~= seq![Comp::Root] + as_normals(nv.take(0)));
            while i < names.len()
                invariant
                    i <= names.len(),
                    nv == names_view(names@),
                    comps_view(full@) == seq![Comp::Root] + as_normals(nv.take(i as int)),
                decreases names.len() - i,
            {
                let ghost before = comps_view(full@);
                full.push(PathComp::Normal(slice_vec(&names[i], 0, names[i].len())));
                assert(names[i as int]@.subrange(0, names[i as int]@.len() as int) == names[i as int]@);
                assert(nv[i as int] == names[i as int]@);
                assert(comps_view(full@) =~= before.push(Comp::Normal(nv[i as int])));
                assert(as_normals(nv.take(i + 1)) =~= as_normals(nv.take(i as int)).push(
                    Comp::Normal(nv[i as int]),
                ));
                assert(comps_view(full@) =~= seq![Comp::Root] + as_normals(nv.take(i + 1)));
                i = i + 1;
            }
            assert(nv.take(names.len() as int) == nv);
            let base = components_exec(&chars_of(cwd));
            let ghost fv = comps_view(full@);
            let ghost bv = comps_view(base@);
            assert(fv == seq![Comp::Root] + as_normals(nv));
            assert(bv == components(cwd@));
            if base.len() > full.len() {
                return Err(SecurityError::Unauthorized);
            }
            let mut j: usize = 0;
            while j < base.len()
                invariant
                    j <= base.len() <= full.len(),
                    fv == comps_view(full@),
                    bv == comps_view(base@),
                    fv.take(j as int) == bv.take(j as int),
                    fv == seq![Comp::Root] + as_normals(nv),
                    bv == components(cwd@),
                    path@.len() > 0,
                    normalize(components(path@)) == Some((Start::Root, nv)),
                    is_resolved(path@) ==> components(path@) == fv,
                decreases base.len() - j,
            {
                if !comp_eq(&full[j], &base[j]) {
                    assert(fv.take(bv.len() as int)[j as int] != bv[j as int]);
                    assert(fv.take(bv.len() as int) != bv);
                    return Err(SecurityError::Unauthorized);
                }
                assert(fv.take(j + 1) =~= fv.take(j as int).push(fv[j as int]));
                assert(bv.take(j + 1) =~= bv.take(j as int).push(bv[j as int]));
                j = j + 1;
            }
            assert(bv.take(bv.len() as int) == bv);
            Ok(())
        },
    }
}

} // verus!
