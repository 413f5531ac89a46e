//! Character-level text model: whitespace, trimming, line splitting,
//! substring search, replacement, joining and decimal rendering, each
//! stated over `Seq<char>` and implemented over `Vec<char>`.
use vstd::prelude::*;

verus! {

// ---------------------------------------------------------------------------
// Conversions between `str`/`String` and `Vec<char>`
// ---------------------------------------------------------------------------

/// The characters of `s`, in order.
pub fn chars_of(s: &str) -> (v: Vec<char>)
    ensures
        v@ == s@,
{
    let mut v: Vec<char> = Vec::new();
    for c in it: s.chars()
        invariant
            v@ == it.seq().take(it.index() as int),
    {
        v.push(c);
    }
    v
}

/// `String::push`: appends one character.
#[verifier::external_body]
fn push_char(s: &mut String, c: char)
    ensures
        final(s)@ == old(s)@.push(c),
{
    s.push(c);
}

/// The string made of the characters of `v`.
pub fn string_of(v: &[char]) -> (s: String)
    ensures
        s@ == v@,
{
    let mut s = String::new();
    let mut i: usize = 0;
    while i < v.len()
        invariant
            i <= v.len(),
            s@ == v@.take(i as int),
        decreases v.len() - i,
    {
        push_char(&mut s, v[i]);
        assert(v@.take(i + 1) == v@.take(i as int).push(v@[i as int]));
        i = i + 1;
    }
    assert(v@.take(v.len() as int) == v@);
    s
}

/// A copy of `v[lo..hi]`.
pub fn slice_vec(v: &[char], lo: usize, hi: usize) -> (r: Vec<char>)
    requires
        lo <= hi <= v.len(),
    ensures
        r@ == v@.subrange(lo as int, hi as int),
{
    let mut r: Vec<char> = Vec::new();
    let mut i: usize = lo;
    while i < hi
        invariant
            lo <= i <= hi <= v.len(),
            r@ == v@.subrange(lo as int, i as int),
        decreases hi - i,
    {
        r.push(v[i]);
        assert(v@.subrange(lo as int, i + 1) == v@.subrange(lo as int, i as int).push(v@[i as int]));
        i = i + 1;
    }
    r
}

/// Appends all of `w` to `v`.
pub fn extend_chars(v: &mut Vec<char>, w: &[char])
    ensures
        final(v)@ == old(v)@ + w@,
{
    let mut i: usize = 0;
    while i < w.len()
        invariant
            i <= w.len(),
            v@ == old(v)@ + w@.take(i as int),
        decreases w.len() - i,
    {
        v.push(w[i]);
        assert(w@.take(i + 1) == w@.take(i as int).push(w@[i as int]));
        i = i + 1;
    }
    assert(w@.take(w.len() as int) == w@);
}

/// Whether two character slices are equal.
pub fn chars_eq(a: &[char], b: &[char]) -> (r: bool)
    ensures
        r == (a@ == b@),
{
    if a.len() != b.len() {
        return false;
    }
    let mut i: usize = 0;
    while i < a.len()
        invariant
            a.len() == b.len(),
            i <= a.len(),
            a@.take(i as int) == b@.take(i as int),
        decreases a.len() - i,
    {
        if a[i] != b[i] {
            return false;
        }
        assert(a@.take(i + 1) == a@.take(i as int).push(a@[i as int]));
        assert(b@.take(i + 1) == b@.take(i as int).push(b@[i as int]));
        i = i + 1;
    }
    assert(a@.take(a.len() as int) == a@);
    assert(b@.take(b.len() as int) == b@);
    true
}

// ---------------------------------------------------------------------------
// Character classes
// ---------------------------------------------------------------------------

/// Unicode `White_Space`, the property that `char::is_whitespace` tests.
pub open spec fn is_ws(c: char) -> bool {
    ||| c == ' '
    ||| ('\u{9}' <= c && c <= '\u{d}')
    ||| c == '\u{85}'
    ||| c == '\u{a0}'
    ||| c == '\u{1680}'
    ||| ('\u{2000}' <= c && c <= '\u{200a}')
    ||| c == '\u{2028}'
    ||| c == '\u{2029}'
    ||| c == '\u{202f}'
    ||| c == '\u{205f}'
    ||| c == '\u{3000}'
}

/// Whether `c` is white space.
pub fn is_whitespace(c: char) -> (r: bool)
    ensures
        r == is_ws(c),
{
    c == ' ' || ('\u{9}' <= c && c <= '\u{d}') || c == '\u{85}' || c == '\u{a0}' || c
        == '\u{1680}' || ('\u{2000}' <= c && c <= '\u{200a}') || c == '\u{2028}' || c
        == '\u{2029}' || c == '\u{202f}' || c == '\u{205f}' || c == '\u{3000}'
}

pub open spec fn is_ascii_lower(c: char) -> bool {
    'a' <= c && c <= 'z'
}

pub open spec fn is_ascii_upper(c: char) -> bool {
    'A' <= c && c <= 'Z'
}

pub open spec fn is_ascii_digit(c: char) -> bool {
    '0' <= c && c <= '9'
}

pub open spec fn is_ascii_alnum(c: char) -> bool {
    is_ascii_lower(c) || is_ascii_upper(c) || is_ascii_digit(c)
}

/// `char::to_ascii_lowercase`.
pub open spec fn ascii_lower(c: char) -> char {
    if is_ascii_upper(c) {
        ((c as u32) + 32) as char
    } else {
        c
    }
}

/// Whether `c` is an ASCII letter or digit.
pub fn is_ascii_alphanumeric(c: char) -> (r: bool)
    ensures
        r == is_ascii_alnum(c),
{
    ('a' <= c && c <= 'z') || ('A' <= c && c <= 'Z') || ('0' <= c && c <= '9')
}

/// The ASCII lower-case form of `c`.
pub fn to_ascii_lowercase(c: char) -> (r: char)
    ensures
        r == ascii_lower(c),
        is_ascii_upper(c) ==> is_ascii_lower(r),
        !is_ascii_upper(c) ==> r == c,
{
    if 'A' <= c && c <= 'Z' {
        let b: u8 = (c as u8) + 32;
        let r = b as char;
        assert(r == ((c as u32) + 32) as char);
        r
    } else {
        c
    }
}


// ---------------------------------------------------------------------------
// Trimming
// ---------------------------------------------------------------------------

/// `s` without its leading white space.
pub open spec fn trim_start(s: Seq<char>) -> Seq<char>
    decreases s.len(),
{
    if s.len() > 0 && is_ws(s[0]) {
        trim_start(s.drop_first())
    } else {
        s
    }
}

/// `s` without its trailing white space.
pub open spec fn trim_end(s: Seq<char>) -> Seq<char>
    decreases s.len(),
{
    if s.len() > 0 && is_ws(s.last()) {
        trim_end(s.drop_last())
    } else {
        s
    }
}

/// `s` without leading and trailing white space.
pub open spec fn trim(s: Seq<char>) -> Seq<char> {
    trim_end(trim_start(s))
}

/// Skipping white space in front keeps `trim_start` unchanged.
pub proof fn lemma_trim_start_skip(s: Seq<char>, k: int)
    requires
        0 <= k <= s.len(),
        forall|j: int| 0 <= j < k ==> is_ws(#[trigger] s[j]),
    ensures
        trim_start(s) == trim_start(s.skip(k)),
    decreases k,
{
    if k > 0 {
        assert(is_ws(s[0]));
        assert(s.drop_first().skip(k - 1) == s.skip(k));
        assert forall|j: int| 0 <= j < k - 1 implies is_ws(#[trigger] s.drop_first()[j]) by {
            assert(s.drop_first()[j] == s[j + 1]);
        }
        lemma_trim_start_skip(s.drop_first(), k - 1);
    } else {
        assert(s.skip(0) == s);
    }
}

/// Dropping white space at the end keeps `trim_end` unchanged.
pub proof fn lemma_trim_end_take(s: Seq<char>, k: int)
    requires
        0 <= k <= s.len(),
        forall|j: int| k <= j < s.len() ==> is_ws(#[trigger] s[j]),
    ensures
        trim_end(s) == trim_end(s.take(k)),
    decreases s.len() - k,
{
    if k < s.len() {
        assert(is_ws(s[s.len() - 1]));
        assert(s.drop_last().take(k) == s.take(k));
        assert forall|j: int| k <= j < s.len() - 1 implies is_ws(#[trigger] s.drop_last()[j]) by {
            assert(s.drop_last()[j] == s[j]);
        }
        lemma_trim_end_take(s.drop_last(), k);
    } else {
        assert(s.take(k) == s);
    }
}

/// Trimming the start never lengthens.
pub proof fn lemma_trim_start_len(s: Seq<char>)
    ensures
        trim_start(s).len() <= s.len(),
        s.len() > 0 && is_ws(s[0]) ==> trim_start(s).len() < s.len(),
    decreases s.len(),
{
    if s.len() > 0 {
        lemma_trim_start_len(s.drop_first());
    }
}

/// Trimming the end never lengthens.
pub proof fn lemma_trim_end_len(s: Seq<char>)
    ensures
        trim_end(s).len() <= s.len(),
        s.len() > 0 && is_ws(s.last()) ==> trim_end(s).len() < s.len(),
    decreases s.len(),
{
    if s.len() > 0 {
        lemma_trim_end_len(s.drop_last());
    }
}

/// Trimming never lengthens.
pub proof fn lemma_trim_len(s: Seq<char>)
    ensures
        trim_start(s).len() <= s.len(),
        trim_end(s).len() <= s.len(),
        trim(s).len() <= s.len(),
        s.len() > 0 && is_ws(s[0]) ==> trim_start(s).len() < s.len(),
        s.len() > 0 && is_ws(s.last()) ==> trim_end(s).len() < s.len(),
{
    lemma_trim_start_len(s);
    lemma_trim_end_len(s);
    lemma_trim_end_len(trim_start(s));
}

/// A text with no white space at its ends is its own trim.
pub proof fn lemma_trim_plain(s: Seq<char>)
    requires
        s.len() > 0 ==> !is_ws(s[0]) && !is_ws(s.last()),
    ensures
        trim_start(s) == s,
        trim_end(s) == s,
        trim(s) == s,
{
}

proof fn lemma_trim_start_first(s: Seq<char>)
    ensures
        trim_start(s).len() > 0 ==> !is_ws(trim_start(s)[0]),
    decreases s.len(),
{
    if s.len() > 0 && is_ws(s[0]) {
        lemma_trim_start_first(s.drop_first());
    }
}

proof fn lemma_trim_end_last(t: Seq<char>)
    ensures
        trim_end(t).len() > 0 ==> !is_ws(trim_end(t).last()),
    decreases t.len(),
{
    if t.len() > 0 && is_ws(t.last()) {
        lemma_trim_end_last(t.drop_last());
    }
}

/// Trimming the end of a text that opens with a non-space keeps that opening.
pub proof fn lemma_trim_end_keeps_first(t: Seq<char>)
    requires
        t.len() > 0,
        !is_ws(t[0]),
    ensures
        trim_end(t).len() > 0,
        trim_end(t)[0] == t[0],
    decreases t.len(),
{
    if is_ws(t.last()) {
        assert(t.len() > 1);
        assert(t.drop_last()[0] == t[0]);
        lemma_trim_end_keeps_first(t.drop_last());
    }
}

/// What trimming leaves has no white space at its ends.
pub proof fn lemma_trim_ends(s: Seq<char>)
    ensures
        trim(s).len() > 0 ==> !is_ws(trim(s)[0]) && !is_ws(trim(s).last()),
{
    lemma_trim_start_first(s);
    lemma_trim_end_last(trim_start(s));
    if trim(s).len() > 0 {
        lemma_trim_end_len(trim_start(s));
        lemma_trim_end_keeps_first(trim_start(s));
    }
}

/// A text that opens with a non-space does not trim to nothing.
pub proof fn lemma_trim_nonempty(t: Seq<char>)
    requires
        t.len() > 0,
        !is_ws(t[0]),
    ensures
        trim(t).len() > 0,
{
    assert(trim_start(t) == t);
    lemma_trim_end_keeps_first(t);
}

/// Trimming the end leaves a prefix of the text.
pub proof fn lemma_trim_end_prefix(t: Seq<char>)
    ensures
        trim_end(t).len() <= t.len(),
        trim_end(t) == t.take(trim_end(t).len() as int),
    decreases t.len(),
{
    if t.len() > 0 && is_ws(t.last()) {
        lemma_trim_end_prefix(t.drop_last());
        assert(t.drop_last().take(trim_end(t).len() as int) =~= t.take(trim_end(t).len() as int));
    } else {
        assert(t.take(t.len() as int) =~= t);
    }
}

/// Trimming the end of a text after a prefix leaves the prefix, when the
/// text opens with a non-space.
pub proof fn lemma_trim_end_after(pad: Seq<char>, l: Seq<char>)
    requires
        l.len() > 0,
        !is_ws(l[0]),
    ensures
        trim_end(pad + l) == pad + trim_end(l),
    decreases l.len(),
{
    let s = pad + l;
    assert(s.last() == l.last());
    if is_ws(l.last()) {
        assert(l.len() > 1);
        assert(s.drop_last() =~= pad + l.drop_last());
        assert(l.drop_last()[0] == l[0]);
        lemma_trim_end_after(pad, l.drop_last());
    }
}

/// Trimming the start of white space, then a text that opens with a
/// non-space, leaves that text.
pub proof fn lemma_trim_start_after(pad: Seq<char>, x: Seq<char>)
    requires
        forall|i: int| 0 <= i < pad.len() ==> is_ws(#[trigger] pad[i]),
        x.len() > 0,
        !is_ws(x[0]),
    ensures
        trim_start(pad + x) == x,
    decreases pad.len(),
{
    let s = pad + x;
    if pad.len() > 0 {
        assert(is_ws(s[0]));
        assert(s.drop_first() =~= pad.drop_first() + x);
        assert forall|i: int| 0 <= i < pad.drop_first().len() implies is_ws(#[trigger] pad.drop_first()[i]) by {
            assert(pad.drop_first()[i] == pad[i + 1]);
        }
        lemma_trim_start_after(pad.drop_first(), x);
    } else {
        assert(s =~= x);
    }
}

/// A non-empty text that is its own trim has no white space at its ends.
pub proof fn lemma_trimmed_ends(s: Seq<char>)
    requires
        trim(s) == s,
        s.len() > 0,
    ensures
        !is_ws(s[0]),
        !is_ws(s.last()),
{
    lemma_trim_len(s);
    lemma_trim_end_len(trim_start(s));
    if is_ws(s[0]) {
        assert(trim(s).len() < s.len());
    }
    if !is_ws(s[0]) {
        assert(trim_start(s) == s);
    }
}

/// Index of the first character of `v` that is not white space (or its length).
fn first_non_ws(v: &[char]) -> (k: usize)
    ensures
        k <= v.len(),
        trim_start(v@) == v@.skip(k as int),
{
    let mut k: usize = 0;
    while k < v.len() && is_whitespace(v[k])
        invariant
            k <= v.len(),
            forall|j: int| 0 <= j < k ==> is_ws(#[trigger] v@[j]),
        decreases v.len() - k,
    {
        k = k + 1;
    }
    proof {
        lemma_trim_start_skip(v@, k as int);
    }
    k
}

/// One past the index of the last character of `v` that is not white space.
fn last_non_ws(v: &[char]) -> (k: usize)
    ensures
        k <= v.len(),
        trim_end(v@) == v@.take(k as int),
{
    let mut k: usize = v.len();
    while k > 0 && is_whitespace(v[k - 1])
        invariant
            k <= v.len(),
            forall|j: int| k <= j < v.len() ==> is_ws(#[trigger] v@[j]),
        decreases k,
    {
        k = k - 1;
    }
    proof {
        lemma_trim_end_take(v@, k as int);
    }
    k
}

/// `str::trim_start`.
pub fn trim_start_chars(v: &[char]) -> (r: Vec<char>)
    ensures
        r@ == trim_start(v@),
{
    let k = first_non_ws(v);
    slice_vec(v, k, v.len())
}

/// `str::trim_end`.
pub fn trim_end_chars(v: &[char]) -> (r: Vec<char>)
    ensures
        r@ == trim_end(v@),
{
    let k = last_non_ws(v);
    slice_vec(v, 0, k)
}

/// `str::trim`.
pub fn trim_chars(v: &[char]) -> (r: Vec<char>)
    ensures
        r@ == trim(v@),
{
    let a = trim_start_chars(v);
    trim_end_chars(&a)
}


// ---------------------------------------------------------------------------
// Lines
// ---------------------------------------------------------------------------

/// A line without the `'\r'` that preceded its `'\n'`.
pub open spec fn strip_cr(l: Seq<char>) -> Seq<char> {
    if l.len() > 0 && l.last() == '\r' {
        l.drop_last()
    } else {
        l
    }
}

/// The lines of `s[start..]`, scanning from `i`: what `str::lines` yields.
pub open spec fn lines_from(s: Seq<char>, start: int, i: int) -> Seq<Seq<char>>
    decreases s.len() - i,
{
    if i >= s.len() {
        if start < s.len() {
            seq![s.subrange(start, s.len() as int)]
        } else {
            seq![]
        }
    } else if s[i] == '\n' {
        seq![strip_cr(s.subrange(start, i))] + lines_from(s, i + 1, i + 1)
    } else {
        lines_from(s, start, i + 1)
    }
}

/// `str::lines`: split at `'\n'` (dropping a `'\r'` just before it); a final
/// line ending adds no empty line.
pub open spec fn lines(s: Seq<char>) -> Seq<Seq<char>> {
    lines_from(s, 0, 0)
}

/// `str::lines`.
pub fn lines_of(v: &[char]) -> (r: Vec<Vec<char>>)
    ensures
        r@.map_values(|l: Vec<char>| l@) == lines(v@),
{
    let mut r: Vec<Vec<char>> = Vec::new();
    let mut start: usize = 0;
    let mut i: usize = 0;
    while i < v.len()
        invariant
            start <= i <= v.len(),
            r@.map_values(|l: Vec<char>| l@) + lines_from(v@, start as int, i as int) == lines(v@),
        decreases v.len() - i,
    {
        if v[i] == '\n' {
            let mut end = i;
            if end > start && v[end - 1] == '\r' {
                end = end - 1;
            }
            let l = slice_vec(v, start, end);
            proof {
                let sub = v@.subrange(start as int, i as int);
                if i > start && v@[i - 1] == '\r' {
                    assert(sub.drop_last() == v@.subrange(start as int, end as int));
                }
                assert(l@ == strip_cr(sub));
            }
            let ghost old_r = r@;
            r.push(l);
            assert(r@.map_values(|l: Vec<char>| l@) == old_r.map_values(|l: Vec<char>| l@).push(l@));
            assert(lines_from(v@, start as int, i as int) == seq![l@] + lines_from(v@, i + 1, i + 1));
            i = i + 1;
            start = i;
        } else {
            i = i + 1;
        }
    }
    if start < v.len() {
        let l = slice_vec(v, start, v.len());
        let ghost old_r = r@;
        r.push(l);
        assert(r@.map_values(|l: Vec<char>| l@) == old_r.map_values(|l: Vec<char>| l@).push(l@));
    }
    r
}

/// Lines each ended by `'\n'`.
pub open spec fn unlines(ls: Seq<Seq<char>>) -> Seq<char>
    decreases ls.len(),
{
    if ls.len() == 0 {
        seq![]
    } else {
        unlines(ls.drop_last()) + ls.last() + seq!['\n']
    }
}

/// A line as `lines` gives it back: no `'\n'`, and no `'\r'` at its end.
pub open spec fn plain_line(l: Seq<char>) -> bool {
    !l.contains('\n') && !(l.len() > 0 && l.last() == '\r')
}

/// Scanning past characters other than `'\n'` changes nothing.
pub proof fn lemma_lines_from_skip(s: Seq<char>, start: int, i: int, k: int)
    requires
        0 <= start <= i <= k <= s.len(),
        forall|j: int| i <= j < k ==> s[j] != '\n',
    ensures
        lines_from(s, start, i) == lines_from(s, start, k),
    decreases k - i,
{
    if i < k {
        lemma_lines_from_skip(s, start, i + 1, k);
    }
}

/// Scanning a suffix is scanning the whole from further on.
pub proof fn lemma_lines_from_shift(s: Seq<char>, d: int, start: int, i: int)
    requires
        0 <= d <= start <= i <= s.len(),
    ensures
        lines_from(s, start, i) == lines_from(s.skip(d), start - d, i - d),
    decreases s.len() - i,
{
    let t = s.skip(d);
    if i < s.len() {
        assert(t[i - d] == s[i]);
        if s[i] == '\n' {
            lemma_lines_from_shift(s, d, i + 1, i + 1);
            assert(t.subrange(start - d, i - d) == s.subrange(start, i));
        } else {
            lemma_lines_from_shift(s, d, start, i + 1);
        }
    } else {
        assert(t.subrange(start - d, t.len() as int) == s.subrange(start, s.len() as int));
    }
}

proof fn lemma_lines_from_split(a: Seq<char>, x: Seq<char>, start: int, i: int)
    requires
        a.len() > 0,
        a.last() == '\n',
        0 <= start <= i < a.len(),
    ensures
        lines_from(a + x, start, i) == lines_from(a, start, i) + lines_from(a + x, a.len() as int, a.len() as int),
    decreases a.len() - i,
{
    let s = a + x;
    assert(s[i] == a[i]);
    assert(s.subrange(start, i) == a.subrange(start, i));
    if a[i] == '\n' {
        if i + 1 == a.len() {
            assert(lines_from(a, i + 1, i + 1) == Seq::<Seq<char>>::empty());
            assert(seq![strip_cr(a.subrange(start, i))] + Seq::<Seq<char>>::empty() =~= seq![
                strip_cr(a.subrange(start, i)),
            ]);
        } else {
            lemma_lines_from_split(a, x, i + 1, i + 1);
            let l = seq![strip_cr(a.subrange(start, i))];
            assert(l + (lines_from(a, i + 1, i + 1) + lines_from(s, a.len() as int, a.len() as int)) =~= l
                + lines_from(a, i + 1, i + 1) + lines_from(s, a.len() as int, a.len() as int));
        }
    } else {
        assert(i + 1 < a.len());
        lemma_lines_from_split(a, x, start, i + 1);
    }
}

/// The lines of a text of whole lines, then more, are its lines, then the
/// lines of the rest.
pub proof fn lemma_lines_append(a: Seq<char>, x: Seq<char>)
    requires
        a.len() == 0 || a.last() == '\n',
    ensures
        lines(a + x) == lines(a) + lines(x),
{
    if a.len() == 0 {
        assert(a + x =~= x);
        assert(lines(a) == Seq::<Seq<char>>::empty());
        assert(Seq::<Seq<char>>::empty() + lines(x) =~= lines(x));
    } else {
        lemma_lines_from_split(a, x, 0, 0);
        lemma_lines_from_shift(a + x, a.len() as int, a.len() as int, a.len() as int);
        assert((a + x).skip(a.len() as int) =~= x);
    }
}

/// The first line of `a + "\n" + b` is `a` (without a final `'\r'`).
pub proof fn lemma_lines_cons(a: Seq<char>, b: Seq<char>)
    requires
        !a.contains('\n'),
    ensures
        lines(a + seq!['\n'] + b) == seq![strip_cr(a)] + lines(b),
{
    let s = a + seq!['\n'] + b;
    assert forall|j: int| 0 <= j < a.len() implies s[j] != '\n' by {
        assert(s[j] == a[j]);
    }
    lemma_lines_from_skip(s, 0, 0, a.len() as int);
    assert(s[a.len() as int] == '\n');
    assert(s.subrange(0, a.len() as int) == a);
    let n = a.len() as int;
    lemma_lines_from_shift(s, n + 1, n + 1, n + 1);
    assert(s.skip(n + 1) == b);
}

/// A text without `'\n'` is one line, or none when empty.
pub proof fn lemma_lines_single(a: Seq<char>)
    requires
        !a.contains('\n'),
    ensures
        a.len() > 0 ==> lines(a) == seq![a],
        a.len() == 0 ==> lines(a) == Seq::<Seq<char>>::empty(),
{
    assert forall|j: int| 0 <= j < a.len() implies a[j] != '\n' by {
        assert(a.contains(a[j]) ==> true);
        if a[j] == '\n' {
            assert(a.contains('\n'));
        }
    }
    lemma_lines_from_skip(a, 0, 0, a.len() as int);
    assert(a.subrange(0, a.len() as int) == a);
}

/// Lines written with `unlines` read back as themselves.
pub proof fn lemma_lines_unlines(ls: Seq<Seq<char>>, x: Seq<char>)
    requires
        forall|i: int| 0 <= i < ls.len() ==> plain_line(#[trigger] ls[i]),
    ensures
        lines(unlines(ls) + x) == ls + lines(x),
    decreases ls.len(),
{
    if ls.len() > 0 {
        let l = ls.last();
        assert(plain_line(ls[ls.len() - 1]));
        lemma_lines_cons(l, x);
        assert(strip_cr(l) == l);
        assert(unlines(ls) + x == unlines(ls.drop_last()) + (l + seq!['\n'] + x));
        assert forall|i: int| 0 <= i < ls.drop_last().len() implies plain_line(#[trigger] ls.drop_last()[i]) by {
            assert(ls.drop_last()[i] == ls[i]);
        }
        lemma_lines_unlines(ls.drop_last(), l + seq!['\n'] + x);
        assert(ls == ls.drop_last() + seq![l]);
    } else {
        assert(unlines(ls) + x == x);
    }
}

/// `unlines` of a concatenation.
pub proof fn lemma_unlines_append(a: Seq<Seq<char>>, b: Seq<Seq<char>>)
    ensures
        unlines(a + b) == unlines(a) + unlines(b),
    decreases b.len(),
{
    if b.len() > 0 {
        assert((a + b).drop_last() == a + b.drop_last());
        assert((a + b).last() == b.last());
        lemma_unlines_append(a, b.drop_last());
    } else {
        assert(a + b == a);
    }
}

/// Joining after a first part.
pub proof fn lemma_join_cons(a: Seq<char>, ls: Seq<Seq<char>>, sep: Seq<char>)
    requires
        ls.len() > 0,
    ensures
        join(seq![a] + ls, sep) == a + sep + join(ls, sep),
    decreases ls.len(),
{
    let all = seq![a] + ls;
    if ls.len() == 1 {
        assert(all.drop_last() == seq![a]);
        assert(all.last() == ls[0]);
        assert(join(seq![a], sep) == a);
        assert(join(all, sep) == a + sep + ls[0]);
    } else {
        lemma_join_cons(a, ls.drop_last(), sep);
        assert(all.drop_last() == seq![a] + ls.drop_last());
        assert(all.last() == ls.last());
        assert(join(all, sep) == join(seq![a] + ls.drop_last(), sep) + sep + ls.last());
        assert(join(ls, sep) == join(ls.drop_last(), sep) + sep + ls.last());
        assert(a + sep + join(ls.drop_last(), sep) + sep + ls.last() =~= a + sep + (join(
            ls.drop_last(),
            sep,
        ) + sep + ls.last()));
    }
}

/// A join by `'\n'` is `unlines` of all but the last part, then the last.
pub proof fn lemma_join_unlines(ls: Seq<Seq<char>>)
    requires
        ls.len() > 0,
    ensures
        join(ls, seq!['\n']) == unlines(ls.drop_last()) + ls.last(),
    decreases ls.len(),
{
    if ls.len() > 1 {
        lemma_join_unlines(ls.drop_last());
        assert(ls.drop_last().drop_last() == ls.drop_last().drop_last());
    } else {
        assert(ls.drop_last().len() == 0);
    }
}

/// Lines joined by `'\n'` read back as themselves.
pub proof fn lemma_lines_join(ls: Seq<Seq<char>>)
    requires
        ls.len() > 0,
        ls.last().len() > 0,
        forall|i: int| 0 <= i < ls.len() ==> plain_line(#[trigger] ls[i]),
    ensures
        lines(join(ls, seq!['\n'])) == ls,
{
    lemma_join_unlines(ls);
    assert forall|i: int| 0 <= i < ls.drop_last().len() implies plain_line(#[trigger] ls.drop_last()[i]) by {
        assert(ls.drop_last()[i] == ls[i]);
    }
    lemma_lines_unlines(ls.drop_last(), ls.last());
    assert(plain_line(ls[ls.len() - 1]));
    lemma_lines_single(ls.last());
    assert(ls.drop_last() + seq![ls.last()] == ls);
}

/// A text without `"\r\n"` and without a final `'\r'`, followed by a line
/// ending, splits into lines that join back into it.
pub proof fn lemma_join_lines(x: Seq<char>)
    requires
        !contains_sub(x, seq!['\r', '\n']),
        !(x.len() > 0 && x.last() == '\r'),
    ensures
        lines(x + seq!['\n']).len() > 0,
        join(lines(x + seq!['\n']), seq!['\n']) == x,
    decreases x.len(),
{
    if x.contains('\n') {
        let k = choose|k: int| 0 <= k < x.len() && x[k] == '\n';
        let first = lemma_first_newline(x, k);
        let a = x.take(first);
        let rest = x.skip(first + 1);
        assert(x == a + seq!['\n'] + rest);
        assert(x + seq!['\n'] == a + seq!['\n'] + (rest + seq!['\n']));
        assert(!a.contains('\n')) by {
            if a.contains('\n') {
                let j = choose|j: int| 0 <= j < a.len() && a[j] == '\n';
                assert(x[j] == '\n');
            }
        }
        lemma_lines_cons(a, rest + seq!['\n']);
        assert(strip_cr(a) == a) by {
            if a.len() > 0 && a.last() == '\r' {
                assert(matches_at(x, first - 1, seq!['\r', '\n'])) by {
                    assert(x.subrange(first - 1, first + 1) =~= seq!['\r', '\n']);
                }
            }
        }
        assert(!contains_sub(rest, seq!['\r', '\n'])) by {
            if contains_sub(rest, seq!['\r', '\n']) {
                let j = choose|j: int| matches_at(rest, j, seq!['\r', '\n']);
                assert(x.subrange(first + 1 + j, first + 1 + j + 2) == rest.subrange(j, j + 2));
                assert(matches_at(x, first + 1 + j, seq!['\r', '\n']));
            }
        }
        assert(!(rest.len() > 0 && rest.last() == '\r')) by {
            if rest.len() > 0 {
                assert(rest.last() == x.last());
            }
        }
        lemma_join_lines(rest);
        lemma_join_cons(a, lines(rest + seq!['\n']), seq!['\n']);
    } else {
        assert(!(x + seq!['\n']).take(x.len() as int).contains('\n')) by {
            assert((x + seq!['\n']).take(x.len() as int) == x);
        }
        lemma_lines_cons(x, seq![]);
        assert(x + seq!['\n'] == x + seq!['\n'] + Seq::<char>::empty());
        assert(lines(Seq::<char>::empty()) == Seq::<Seq<char>>::empty());
        assert(seq![strip_cr(x)] + Seq::<Seq<char>>::empty() == seq![strip_cr(x)]);
        assert(strip_cr(x) == x);
    }
}

/// The lines of a text without `'\r'`, ended by a newline, are plain and
/// give the text back, each with its newline.
pub proof fn lemma_lines_ended(x: Seq<char>)
    requires
        !x.contains('\r'),
    ensures
        lines(x + seq!['\n']).len() > 0,
        forall|i: int| 0 <= i < lines(x + seq!['\n']).len() ==> plain_line(#[trigger] lines(x + seq!['\n'])[i]),
        unlines(lines(x + seq!['\n'])) == x + seq!['\n'],
    decreases x.len(),
{
    if x.contains('\n') {
        let k = choose|k: int| 0 <= k < x.len() && x[k] == '\n';
        let first = lemma_first_newline(x, k);
        let a = x.take(first);
        let rest = x.skip(first + 1);
        assert(x == a + seq!['\n'] + rest);
        assert(x + seq!['\n'] == a + seq!['\n'] + (rest + seq!['\n']));
        assert(!a.contains('\n')) by {
            if a.contains('\n') {
                let j = choose|j: int| 0 <= j < a.len() && a[j] == '\n';
                assert(x[j] == '\n');
            }
        }
        assert(!rest.contains('\r')) by {
            if rest.contains('\r') {
                let j = choose|j: int| 0 <= j < rest.len() && rest[j] == '\r';
                assert(x[first + 1 + j] == '\r');
            }
        }
        lemma_lines_cons(a, rest + seq!['\n']);
        assert(strip_cr(a) == a) by {
            if a.len() > 0 && a.last() == '\r' {
                assert(x[first - 1] == '\r');
            }
        }
        lemma_lines_ended(rest);
        let tail = lines(rest + seq!['\n']);
        let ls = lines(x + seq!['\n']);
        assert(ls == seq![a] + tail);
        assert forall|i: int| 0 <= i < ls.len() implies plain_line(#[trigger] ls[i]) by {
            if i > 0 {
                assert(ls[i] == tail[i - 1]);
            } else {
                assert(ls[0] == a);
                if a.len() > 0 {
                    assert(a.last() == x[first - 1]);
                }
            }
        }
        lemma_unlines_append(seq![a], tail);
        assert(unlines(seq![a]) == a + seq!['\n']) by {
            assert(seq![a].drop_last() =~= Seq::<Seq<char>>::empty());
            assert(unlines(Seq::<Seq<char>>::empty()) == Seq::<char>::empty());
            assert(seq![a].last() == a);
            assert(Seq::<char>::empty() + a + seq!['\n'] =~= a + seq!['\n']);
        }
        assert(unlines(ls) == a + seq!['\n'] + (rest + seq!['\n']));
    } else {
        lemma_lines_cons(x, seq![]);
        assert(x + seq!['\n'] == x + seq!['\n'] + Seq::<char>::empty());
        assert(lines(Seq::<char>::empty()) == Seq::<Seq<char>>::empty());
        assert(strip_cr(x) == x) by {
            if x.len() > 0 && x.last() == '\r' {
                assert(x.contains(x.last()));
            }
        }
        assert(lines(x + seq!['\n']) =~= seq![x]);
        assert(plain_line(x)) by {
            if x.len() > 0 && x.last() == '\r' {
                assert(x.contains(x.last()));
            }
        }
        assert(seq![x].drop_last() =~= Seq::<Seq<char>>::empty());
        assert(unlines(Seq::<Seq<char>>::empty()) == Seq::<char>::empty());
        assert(seq![x].last() == x);
        assert(Seq::<char>::empty() + x + seq!['\n'] =~= x + seq!['\n']);
    }
}

proof fn lemma_lines_from_unended(s: Seq<char>, start: int, i: int)
    requires
        0 <= start <= i <= s.len(),
        start < s.len(),
        s.last() != '\n',
        !s.contains('\r'),
    ensures
        lines_from(s + seq!['\n'], start, i) == lines_from(s, start, i),
    decreases s.len() - i,
{
    let t = s + seq!['\n'];
    assert(t.subrange(start, i) == s.subrange(start, i));
    if i == s.len() {
        assert(t[i] == '\n');
        assert(lines_from(t, i + 1, i + 1) == Seq::<Seq<char>>::empty());
        assert(strip_cr(s.subrange(start, i)) == s.subrange(start, i)) by {
            let u = s.subrange(start, i);
            if u.len() > 0 && u.last() == '\r' {
                assert(s[i - 1] == '\r');
                assert(s.contains(s[i - 1]));
            }
        }
    } else {
        assert(t[i] == s[i]);
        if s[i] == '\n' {
            assert(i + 1 < s.len());
            lemma_lines_from_unended(s, i + 1, i + 1);
        } else {
            lemma_lines_from_unended(s, start, i + 1);
        }
    }
}

/// A text not ended by a newline has the lines it would have with one.
pub proof fn lemma_lines_unended(s: Seq<char>)
    requires
        s.len() > 0,
        s.last() != '\n',
        !s.contains('\r'),
    ensures
        lines(s + seq!['\n']) == lines(s),
{
    lemma_lines_from_unended(s, 0, 0);
}

/// The first `'\n'` of a text that has one.
pub proof fn lemma_first_newline(x: Seq<char>, k: int) -> (first: int)
    requires
        0 <= k < x.len(),
        x[k] == '\n',
    ensures
        0 <= first <= k,
        x[first] == '\n',
        forall|j: int| 0 <= j < first ==> x[j] != '\n',
    decreases k,
{
    if exists|j: int| 0 <= j < k && x[j] == '\n' {
        let j = choose|j: int| 0 <= j < k && x[j] == '\n';
        lemma_first_newline(x, j)
    } else {
        k
    }
}

// ---------------------------------------------------------------------------
// Substrings
// ---------------------------------------------------------------------------

/// `p` occurs in `s` at index `i`.
pub open spec fn matches_at(s: Seq<char>, i: int, p: Seq<char>) -> bool {
    0 <= i && i + p.len() <= s.len() && s.subrange(i, i + p.len()) == p
}

/// The first index at or after `i` where `p` occurs in `s`.
pub open spec fn find_from(s: Seq<char>, p: Seq<char>, i: int) -> Option<int>
    decreases s.len() + 1 - i,
{
    if i < 0 || i + p.len() > s.len() {
        None
    } else if matches_at(s, i, p) {
        Some(i)
    } else {
        find_from(s, p, i + 1)
    }
}

/// `str::find`: the first index where `p` occurs in `s`.
pub open spec fn find_sub(s: Seq<char>, p: Seq<char>) -> Option<int> {
    find_from(s, p, 0)
}

/// `str::contains`.
pub open spec fn contains_sub(s: Seq<char>, p: Seq<char>) -> bool {
    exists|i: int| matches_at(s, i, p)
}

/// What `find_from` finds is an occurrence, and none comes before it.
pub proof fn lemma_find_from(s: Seq<char>, p: Seq<char>, i: int)
    requires
        0 <= i,
    ensures
        find_from(s, p, i) matches Some(k) ==> i <= k && matches_at(s, k, p) && forall|j: int|
            i <= j < k ==> !matches_at(s, j, p),
        find_from(s, p, i) is None ==> forall|j: int| i <= j ==> !matches_at(s, j, p),
    decreases s.len() + 1 - i,
{
    if i + p.len() <= s.len() && !matches_at(s, i, p) {
        lemma_find_from(s, p, i + 1);
    }
}

/// `find_sub` finds an occurrence exactly when there is one.
pub proof fn lemma_find_sub(s: Seq<char>, p: Seq<char>)
    ensures
        find_sub(s, p) is Some <==> contains_sub(s, p),
        find_sub(s, p) matches Some(k) ==> matches_at(s, k, p) && forall|j: int|
            0 <= j < k ==> !matches_at(s, j, p),
{
    lemma_find_from(s, p, 0);
    if find_sub(s, p) is None {
        assert forall|j: int| !matches_at(s, j, p) by {
            if 0 <= j {
            }
        }
    }
}

/// Whether `p` occurs in `s` at `i`.
pub fn matches_at_exec(s: &[char], i: usize, p: &[char]) -> (r: bool)
    ensures
        r == matches_at(s@, i as int, p@),
{
    if i > s.len() || p.len() > s.len() - i {
        return false;
    }
    let mut j: usize = 0;
    while j < p.len()
        invariant
            i + p.len() <= s.len(),
            j <= p.len(),
            s@.subrange(i as int, i + j) == p@.take(j as int),
        decreases p.len() - j,
    {
        if s[i + j] != p[j] {
            assert(s@.subrange(i as int, i + p.len())[j as int] != p@[j as int]);
            return false;
        }
        assert(s@.subrange(i as int, i + j + 1) == s@.subrange(i as int, i + j).push(s@[i + j]));
        assert(p@.take(j + 1) == p@.take(j as int).push(p@[j as int]));
        j = j + 1;
    }
    assert(p@.take(p.len() as int) == p@);
    true
}

/// `str::find`.
pub fn find_sub_exec(s: &[char], p: &[char]) -> (r: Option<usize>)
    ensures
        r matches Some(k) ==> find_sub(s@, p@) == Some(k as int),
        r is None ==> find_sub(s@, p@) is None,
{
    if p.len() > s.len() {
        return None;
    }
    let mut i: usize = 0;
    let last = s.len() - p.len();
    while i <= last
        invariant
            p.len() <= s.len(),
            last == s.len() - p.len(),
            i <= last + 1,
            find_from(s@, p@, 0) == find_from(s@, p@, i as int),
        decreases last + 1 - i,
    {
        if matches_at_exec(s, i, p) {
            return Some(i);
        }
        if i == last {
            assert(find_from(s@, p@, i + 1) is None);
            return None;
        }
        i = i + 1;
    }
    None
}

/// `str::contains`.
pub fn contains_exec(s: &[char], p: &[char]) -> (r: bool)
    ensures
        r == contains_sub(s@, p@),
{
    proof {
        lemma_find_sub(s@, p@);
    }
    find_sub_exec(s, p).is_some()
}


// ---------------------------------------------------------------------------
// Replacement
// ---------------------------------------------------------------------------

/// One less of a remaining count; no count stays no count.
pub open spec fn count_down(n: Option<nat>) -> Option<nat> {
    match n {
        Some(k) => Some((k - 1) as nat),
        None => None,
    }
}

/// `str::replacen` (with `Some(n)`) and `str::replace` (with `None`):
/// occurrences of `from` are found left to right without overlap, and each of
/// the first `n` is replaced by `to`. An empty `from` occurs at every
/// character boundary.
pub open spec fn replace(s: Seq<char>, from: Seq<char>, to: Seq<char>, n: Option<nat>) -> Seq<
    char,
>
    decreases s.len(),
{
    if n == Some(0nat) {
        s
    } else if from.len() == 0 {
        if s.len() == 0 {
            to
        } else {
            to + seq![s[0]] + replace(s.drop_first(), from, to, count_down(n))
        }
    } else if s.len() == 0 {
        s
    } else if matches_at(s, 0, from) {
        to + replace(s.skip(from.len() as int), from, to, count_down(n))
    } else {
        seq![s[0]] + replace(s.drop_first(), from, to, n)
    }
}

fn count_down_exec(n: Option<usize>) -> (r: Option<usize>)
    requires
        n != Some(0usize),
    ensures
        opt_nat(r) == count_down(opt_nat(n)),
{
    match n {
        Some(k) => Some(k - 1),
        None => None,
    }
}

/// A count as a mathematical count.
pub open spec fn opt_nat(n: Option<usize>) -> Option<nat> {
    match n {
        Some(k) => Some(k as nat),
        None => None,
    }
}

/// `str::replacen` / `str::replace`.
pub fn replace_exec(s: &[char], from: &[char], to: &[char], n: Option<usize>) -> (r: Vec<char>)
    ensures
        r@ == replace(s@, from@, to@, opt_nat(n)),
{
    let mut out: Vec<char> = Vec::new();
    let mut i: usize = 0;
    let mut left = n;
    assert(s@.skip(0) == s@);
    assert(out@ + replace(s@, from@, to@, opt_nat(n)) == replace(s@, from@, to@, opt_nat(n)));
    loop
        invariant
            i <= s.len(),
            replace(s@, from@, to@, opt_nat(n)) == out@ + replace(
                s@.skip(i as int),
                from@,
                to@,
                opt_nat(left),
            ),
        decreases s.len() - i,
    {
        let ghost rest = s@.skip(i as int);
        if left == Some(0usize) {
            let tail = slice_vec(s, i, s.len());
            extend_chars(&mut out, &tail);
            return out;
        }
        if from.len() == 0 {
            extend_chars(&mut out, to);
            if i == s.len() {
                assert(rest.len() == 0);
                return out;
            }
            out.push(s[i]);
            assert(rest.drop_first() == s@.skip(i + 1));
            assert(rest[0] == s@[i as int]);
            left = count_down_exec(left);
            i = i + 1;
        } else if i == s.len() {
            assert(rest.len() == 0);
            return out;
        } else if matches_at_exec(s, i, from) {
            assert(rest.subrange(0, from@.len() as int) == s@.subrange(i as int, i + from@.len()));
            assert(matches_at(rest, 0, from@));
            assert(rest.skip(from@.len() as int) == s@.skip(i + from@.len()));
            extend_chars(&mut out, to);
            left = count_down_exec(left);
            i = i + from.len();
        } else {
            assert(rest.len() >= from@.len() ==> rest.subrange(0, from@.len() as int) == s@.subrange(
                i as int,
                i + from@.len(),
            ));
            assert(!matches_at(rest, 0, from@));
            assert(rest.drop_first() == s@.skip(i + 1));
            assert(rest[0] == s@[i as int]);
            out.push(s[i]);
            i = i + 1;
        }
    }
}

/// Replacing what does not occur changes nothing.
pub proof fn lemma_replace_absent(s: Seq<char>, from: Seq<char>, to: Seq<char>, n: Option<nat>)
    requires
        from.len() > 0,
        !contains_sub(s, from),
    ensures
        replace(s, from, to, n) == s,
    decreases s.len(),
{
    if n != Some(0nat) && s.len() > 0 {
        assert(!matches_at(s, 0, from));
        assert(!contains_sub(s.drop_first(), from)) by {
            if contains_sub(s.drop_first(), from) {
                let j = choose|j: int| matches_at(s.drop_first(), j, from);
                assert(s.subrange(j + 1, j + 1 + from.len()) == s.drop_first().subrange(j, j + from.len()));
                assert(matches_at(s, j + 1, from));
            }
        }
        lemma_replace_absent(s.drop_first(), from, to, n);
        assert(s == seq![s[0]] + s.drop_first());
    }
}

/// A character absent from the text and from the replacement stays absent.
pub proof fn lemma_replace_keeps_absent(s: Seq<char>, from: Seq<char>, to: Seq<char>, n: Option<nat>, x: char)
    requires
        !s.contains(x),
        !to.contains(x),
    ensures
        !replace(s, from, to, n).contains(x),
    decreases s.len(),
{
    let r = replace(s, from, to, n);
    if n == Some(0nat) {
    } else if from.len() == 0 {
        if s.len() > 0 {
            assert(!s.drop_first().contains(x)) by {
                if s.drop_first().contains(x) {
                    let j = choose|j: int| 0 <= j < s.drop_first().len() && s.drop_first()[j] == x;
                    assert(s[j + 1] == x);
                }
            }
            lemma_replace_keeps_absent(s.drop_first(), from, to, count_down(n), x);
            let rest = replace(s.drop_first(), from, to, count_down(n));
            assert(!(to + seq![s[0]] + rest).contains(x)) by {
                if (to + seq![s[0]] + rest).contains(x) {
                    let j = choose|j: int| 0 <= j < (to + seq![s[0]] + rest).len() && (to + seq![s[0]] + rest)[j] == x;
                    if j < to.len() {
                        assert(to[j] == x);
                    } else if j == to.len() {
                        assert(s[0] == x);
                    } else {
                        assert(rest[j - to.len() - 1] == x);
                    }
                }
            }
        }
    } else if s.len() == 0 {
    } else if matches_at(s, 0, from) {
        let t = s.skip(from.len() as int);
        assert(!t.contains(x)) by {
            if t.contains(x) {
                let j = choose|j: int| 0 <= j < t.len() && t[j] == x;
                assert(s[j + from.len()] == x);
            }
        }
        lemma_replace_keeps_absent(t, from, to, count_down(n), x);
        let rest = replace(t, from, to, count_down(n));
        assert(!(to + rest).contains(x)) by {
            if (to + rest).contains(x) {
                let j = choose|j: int| 0 <= j < (to + rest).len() && (to + rest)[j] == x;
                if j < to.len() {
                    assert(to[j] == x);
                } else {
                    assert(rest[j - to.len()] == x);
                }
            }
        }
    } else {
        assert(!s.drop_first().contains(x)) by {
            if s.drop_first().contains(x) {
                let j = choose|j: int| 0 <= j < s.drop_first().len() && s.drop_first()[j] == x;
                assert(s[j + 1] == x);
            }
        }
        lemma_replace_keeps_absent(s.drop_first(), from, to, n, x);
        let rest = replace(s.drop_first(), from, to, n);
        assert(!(seq![s[0]] + rest).contains(x)) by {
            if (seq![s[0]] + rest).contains(x) {
                let j = choose|j: int| 0 <= j < (seq![s[0]] + rest).len() && (seq![s[0]] + rest)[j] == x;
                if j == 0 {
                    assert(s[0] == x);
                } else {
                    assert(rest[j - 1] == x);
                }
            }
        }
    }
}

/// Replacing every `c` by a text without `c` leaves no `c`.
pub proof fn lemma_replace_char_gone(s: Seq<char>, c: char, to: Seq<char>)
    requires
        !to.contains(c),
    ensures
        !replace(s, seq![c], to, None).contains(c),
    decreases s.len(),
{
    if s.len() > 0 {
        let rest = s.drop_first();
        lemma_replace_char_gone(rest, c, to);
        let r = replace(rest, seq![c], to, None);
        if s[0] == c {
            assert(matches_at(s, 0, seq![c])) by {
                assert(s.subrange(0, 1) =~= seq![c]);
            }
            assert(s.skip(1) == rest);
            assert(!(to + r).contains(c)) by {
                if (to + r).contains(c) {
                    let j = choose|j: int| 0 <= j < (to + r).len() && (to + r)[j] == c;
                    if j < to.len() {
                        assert(to[j] == c);
                    } else {
                        assert(r[j - to.len()] == c);
                    }
                }
            }
        } else {
            assert(!matches_at(s, 0, seq![c])) by {
                if matches_at(s, 0, seq![c]) {
                    assert(s.subrange(0, 1)[0] == s[0]);
                }
            }
            assert(!(seq![s[0]] + r).contains(c)) by {
                if (seq![s[0]] + r).contains(c) {
                    let j = choose|j: int| 0 <= j < (seq![s[0]] + r).len() && (seq![s[0]] + r)[j] == c;
                    if j > 0 {
                        assert(r[j - 1] == c);
                    }
                }
            }
        }
    }
}

/// Changing every `a` to `b` and back restores a text that had no `b`.
pub proof fn lemma_swap_back(s: Seq<char>, a: char, b: char)
    requires
        !s.contains(b),
        a != b,
    ensures
        replace(replace(s, seq![a], seq![b], None), seq![b], seq![a], None) == s,
    decreases s.len(),
{
    if s.len() > 0 {
        let rest = s.drop_first();
        assert(!rest.contains(b)) by {
            if rest.contains(b) {
                let j = choose|j: int| 0 <= j < rest.len() && rest[j] == b;
                assert(s[j + 1] == b);
            }
        }
        lemma_swap_back(rest, a, b);
        let r1 = replace(rest, seq![a], seq![b], None);
        assert(s[0] != b) by {
            assert(s.contains(s[0]) ==> true);
            if s[0] == b {
                assert(s.contains(b));
            }
        }
        if s[0] == a {
            assert(matches_at(s, 0, seq![a])) by {
                assert(s.subrange(0, 1) =~= seq![a]);
            }
            assert(s.skip(1) == rest);
            let w = seq![b] + r1;
            assert(replace(s, seq![a], seq![b], None) == w);
            assert(matches_at(w, 0, seq![b])) by {
                assert(w.subrange(0, 1) =~= seq![b]);
            }
            assert(w.skip(1) == r1);
            assert(replace(w, seq![b], seq![a], None) == seq![a] + replace(r1, seq![b], seq![a], None));
            assert(s =~= seq![a] + rest);
        } else {
            assert(!matches_at(s, 0, seq![a])) by {
                if matches_at(s, 0, seq![a]) {
                    assert(s.subrange(0, 1)[0] == s[0]);
                }
            }
            let w = seq![s[0]] + r1;
            assert(replace(s, seq![a], seq![b], None) == w);
            assert(!matches_at(w, 0, seq![b])) by {
                if matches_at(w, 0, seq![b]) {
                    assert(w.subrange(0, 1)[0] == w[0]);
                }
            }
            assert(w.drop_first() == r1);
            assert(s =~= seq![s[0]] + rest);
        }
    } else {
        assert(replace(s, seq![a], seq![b], None) == s);
    }
}

/// Doubling each `q` and then reading each `qq` as `q` restores the text.
pub proof fn lemma_double_undouble(s: Seq<char>, q: char)
    ensures
        replace(replace(s, seq![q], seq![q, q], None), seq![q, q], seq![q], None) == s,
    decreases s.len(),
{
    if s.len() > 0 {
        let rest = s.drop_first();
        lemma_double_undouble(rest, q);
        let r1 = replace(rest, seq![q], seq![q, q], None);
        if s[0] == q {
            assert(matches_at(s, 0, seq![q])) by {
                assert(s.subrange(0, 1) =~= seq![q]);
            }
            assert(s.skip(1) == rest);
            let w = seq![q, q] + r1;
            assert(replace(s, seq![q], seq![q, q], None) == w);
            assert(matches_at(w, 0, seq![q, q])) by {
                assert(w.subrange(0, 2) =~= seq![q, q]);
            }
            assert(w.skip(2) == r1);
            assert(s =~= seq![q] + rest);
        } else {
            assert(!matches_at(s, 0, seq![q])) by {
                if matches_at(s, 0, seq![q]) {
                    assert(s.subrange(0, 1)[0] == s[0]);
                }
            }
            let w = seq![s[0]] + r1;
            assert(replace(s, seq![q], seq![q, q], None) == w);
            assert(!matches_at(w, 0, seq![q, q])) by {
                if matches_at(w, 0, seq![q, q]) {
                    assert(w.subrange(0, 2)[0] == w[0]);
                }
            }
            assert(w.drop_first() == r1);
            assert(s =~= seq![s[0]] + rest);
        }
    }
}

// ---------------------------------------------------------------------------
// Joining
// ---------------------------------------------------------------------------

/// `[T]::join`: the parts with `sep` between each two of them.
pub open spec fn join(parts: Seq<Seq<char>>, sep: Seq<char>) -> Seq<char>
    decreases parts.len(),
{
    if parts.len() == 0 {
        seq![]
    } else if parts.len() == 1 {
        parts[0]
    } else {
        join(parts.drop_last(), sep) + sep + parts.last()
    }
}

/// `[T]::join` over character vectors.
pub fn join_exec(parts: &[Vec<char>], sep: &[char]) -> (r: Vec<char>)
    ensures
        r@ == join(parts@.map_values(|l: Vec<char>| l@), sep@),
{
    let r = join_range_exec(parts, 0, parts.len(), sep);
    assert(parts@.map_values(|l: Vec<char>| l@).subrange(0, parts@.len() as int) == parts@.map_values(
        |l: Vec<char>| l@,
    ));
    r
}

/// `parts[lo..hi].join(sep)` over character vectors.
pub fn join_range_exec(parts: &[Vec<char>], lo: usize, hi: usize, sep: &[char]) -> (r: Vec<char>)
    requires
        lo <= hi <= parts.len(),
    ensures
        r@ == join(parts@.map_values(|l: Vec<char>| l@).subrange(lo as int, hi as int), sep@),
{
    let ghost ps = parts@.map_values(|l: Vec<char>| l@).subrange(lo as int, hi as int);
    let mut out: Vec<char> = Vec::new();
    let mut i: usize = lo;
    while i < hi
        invariant
            lo <= i <= hi <= parts.len(),
            ps == parts@.map_values(|l: Vec<char>| l@).subrange(lo as int, hi as int),
            out@ == join(ps.take(i - lo), sep@),
        decreases hi - i,
    {
        assert(ps.take(i - lo + 1).drop_last() == ps.take(i - lo));
        assert(ps.take(i - lo + 1).last() == parts@[i as int]@);
        if i > lo {
            extend_chars(&mut out, sep);
        }
        extend_chars(&mut out, &parts[i]);
        i = i + 1;
    }
    assert(ps.take(hi - lo) == ps);
    out
}

// ---------------------------------------------------------------------------
// Numbers
// ---------------------------------------------------------------------------

/// The decimal digit for `d < 10`.
pub open spec fn digit(d: nat) -> char {
    ((d + 48) as u32) as char
}

/// The decimal rendering of `n`, as `Display` writes it.
pub open spec fn decimal(n: nat) -> Seq<char>
    decreases n,
{
    if n < 10 {
        seq![digit(n)]
    } else {
        decimal(n / 10) + seq![digit(n % 10)]
    }
}

/// The decimal rendering of `n`.
pub fn decimal_exec(n: usize) -> (r: Vec<char>)
    ensures
        r@ == decimal(n as nat),
    decreases n,
{
    let d: u8 = (n % 10) as u8;
    let c: char = (d + 48) as char;
    assert(c == digit((n % 10) as nat));
    if n < 10 {
        let mut r: Vec<char> = Vec::new();
        r.push(c);
        r
    } else {
        let mut r = decimal_exec(n / 10);
        r.push(c);
        r
    }
}


// ---------------------------------------------------------------------------
// Debug rendering
// ---------------------------------------------------------------------------

/// What `<str as Debug>::fmt` writes for a string: the string between double
/// quotes, with quotes, backslashes and unprintable characters escaped.
pub uninterp spec fn debug_str(s: Seq<char>) -> Seq<char>;

/// `format!("{:?}", s)`: the `Debug` rendering of a string slice. Trusted to
/// be a function of the characters of `s` alone.
#[verifier::external_body]
pub(crate) fn debug_quote(s: &str) -> (r: String)
    ensures
        r@ == debug_str(s@),
{
    format!("{:?}", s)
}

} // verus!
