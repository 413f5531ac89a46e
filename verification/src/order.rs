//! Orders used to list skills and search hits: the order of `str` (by
//! code point, a prefix first), and stable sorting by a strict order.
use vstd::prelude::*;

verus! {

/// `a < b` as `str` compares: lexicographically by code point.
pub open spec fn seq_lt(a: Seq<char>, b: Seq<char>) -> bool
    decreases a.len(),
{
    if a.len() == 0 {
        b.len() > 0
    } else if b.len() == 0 {
        false
    } else if (a[0] as u32) < (b[0] as u32) {
        true
    } else if (a[0] as u32) > (b[0] as u32) {
        false
    } else {
        seq_lt(a.drop_first(), b.drop_first())
    }
}

/// Whether `a < b` in the order of `str`.
pub fn chars_lt(a: &[char], b: &[char]) -> (r: bool)
    ensures
        r == seq_lt(a@, b@),
{
    let mut i: usize = 0;
    assert(a@.skip(0) == a@);
    assert(b@.skip(0) == b@);
    loop
        invariant
            i <= a.len(),
            i <= b.len(),
            seq_lt(a@, b@) == seq_lt(a@.skip(i as int), b@.skip(i as int)),
        decreases a.len() - i,
    {
        if i == a.len() {
            return i < b.len();
        }
        if i == b.len() {
            return false;
        }
        let x = a[i];
        let y = b[i];
        if (x as u32) < (y as u32) {
            return true;
        }
        if (x as u32) > (y as u32) {
            return false;
        }
        assert(a@.skip(i as int).drop_first() == a@.skip(i + 1));
        assert(b@.skip(i as int).drop_first() == b@.skip(i + 1));
        i = i + 1;
    }
}

/// Where stable insertion puts `x` into `s`: before the first element that
/// `x` comes strictly before.
pub open spec fn insert_pos<T>(s: Seq<T>, x: T, before: spec_fn(T, T) -> bool) -> int
    decreases s.len(),
{
    if s.len() == 0 {
        0
    } else if before(x, s[0]) {
        0
    } else {
        1 + insert_pos(s.drop_first(), x, before)
    }
}

/// `s` with `x` inserted at its stable place.
pub open spec fn insert_sorted<T>(s: Seq<T>, x: T, before: spec_fn(T, T) -> bool) -> Seq<T> {
    let p = insert_pos(s, x, before);
    s.take(p) + seq![x] + s.skip(p)
}

/// `s` sorted stably by `before`: elements that are not ordered keep their
/// relative order.
pub open spec fn sort_by<T>(s: Seq<T>, before: spec_fn(T, T) -> bool) -> Seq<T>
    decreases s.len(),
{
    if s.len() == 0 {
        seq![]
    } else {
        insert_sorted(sort_by(s.drop_last(), before), s.last(), before)
    }
}

/// The insertion place lies within the sequence.
pub proof fn lemma_insert_pos_bounds<T>(s: Seq<T>, x: T, before: spec_fn(T, T) -> bool)
    ensures
        0 <= insert_pos(s, x, before) <= s.len(),
        forall|j: int| 0 <= j < insert_pos(s, x, before) ==> !before(x, #[trigger] s[j]),
        insert_pos(s, x, before) < s.len() ==> before(x, s[insert_pos(s, x, before)]),
    decreases s.len(),
{
    if s.len() > 0 && !before(x, s[0]) {
        lemma_insert_pos_bounds(s.drop_first(), x, before);
        assert forall|j: int| 0 <= j < insert_pos(s, x, before) implies !before(x, #[trigger] s[j]) by {
            if j > 0 {
                assert(s[j] == s.drop_first()[j - 1]);
            }
        }
    }
}

/// Sorting keeps the elements: the result is a permutation.
pub proof fn lemma_sort_by_permutes<T>(s: Seq<T>, before: spec_fn(T, T) -> bool)
    ensures
        sort_by(s, before).to_multiset() == s.to_multiset(),
        sort_by(s, before).len() == s.len(),
    decreases s.len(),
{
    broadcast use vstd::seq_lib::group_to_multiset_ensures;

    if s.len() > 0 {
        let r = sort_by(s.drop_last(), before);
        lemma_sort_by_permutes(s.drop_last(), before);
        lemma_insert_pos_bounds(r, s.last(), before);
        let p = insert_pos(r, s.last(), before);
        assert(r == r.take(p) + r.skip(p));
        vstd::seq_lib::lemma_multiset_commutative(r.take(p), r.skip(p));
        vstd::seq_lib::lemma_multiset_commutative(r.take(p) + seq![s.last()], r.skip(p));
        vstd::seq_lib::lemma_multiset_commutative(r.take(p), seq![s.last()]);
        assert(s == s.drop_last().push(s.last()));
    }
}


/// `before` is a strict order: never both ways, and transitive.
pub open spec fn strict_order<T>(before: spec_fn(T, T) -> bool) -> bool {
    &&& forall|a: T, b: T| #[trigger] before(a, b) ==> !before(b, a)
    &&& forall|a: T, b: T, c: T| #[trigger] before(a, b) && #[trigger] before(b, c) ==> before(a, c)
}

/// No element comes strictly before one that precedes it.
pub open spec fn sorted_by<T>(s: Seq<T>, before: spec_fn(T, T) -> bool) -> bool {
    forall|i: int, j: int| 0 <= i < j < s.len() ==> !before(#[trigger] s[j], #[trigger] s[i])
}

/// Sorting by a strict order yields a sorted sequence.
pub proof fn lemma_sort_by_sorted<T>(s: Seq<T>, before: spec_fn(T, T) -> bool)
    requires
        strict_order(before),
    ensures
        sorted_by(sort_by(s, before), before),
    decreases s.len(),
{
    if s.len() > 0 {
        let r = sort_by(s.drop_last(), before);
        lemma_sort_by_sorted(s.drop_last(), before);
        let x = s.last();
        lemma_insert_pos_bounds(r, x, before);
        let p = insert_pos(r, x, before);
        let res = r.take(p) + seq![x] + r.skip(p);
        assert(sort_by(s, before) == res);
        assert forall|i: int, j: int| 0 <= i < j < res.len() implies !before(#[trigger] res[j], #[trigger] res[i]) by {
            if j < p {
                assert(res[i] == r[i] && res[j] == r[j]);
            } else if j == p {
                assert(res[i] == r[i] && res[j] == x);
            } else if i < p {
                assert(res[i] == r[i] && res[j] == r[j - 1]);
            } else if i == p {
                assert(res[i] == x && res[j] == r[j - 1]);
                if before(r[j - 1], x) {
                    assert(before(x, r[p]));
                    assert(before(r[j - 1], r[p]));
                    if j - 1 > p {
                        assert(!before(r[j - 1], r[p]));
                    }
                }
            } else {
                assert(res[i] == r[i - 1] && res[j] == r[j - 1]);
            }
        }
    }
}

/// What holds of every element still holds after sorting.
pub proof fn lemma_sort_by_all<T>(s: Seq<T>, before: spec_fn(T, T) -> bool, p: spec_fn(T) -> bool)
    requires
        forall|i: int| 0 <= i < s.len() ==> p(#[trigger] s[i]),
    ensures
        forall|i: int| 0 <= i < sort_by(s, before).len() ==> p(#[trigger] sort_by(s, before)[i]),
    decreases s.len(),
{
    if s.len() > 0 {
        let r = sort_by(s.drop_last(), before);
        assert forall|i: int| 0 <= i < s.drop_last().len() implies p(#[trigger] s.drop_last()[i]) by {
            assert(s.drop_last()[i] == s[i]);
        }
        lemma_sort_by_all(s.drop_last(), before, p);
        let x = s.last();
        assert(p(s[s.len() - 1]));
        lemma_insert_pos_bounds(r, x, before);
        let q = insert_pos(r, x, before);
        let res = r.take(q) + seq![x] + r.skip(q);
        assert forall|i: int| 0 <= i < res.len() implies p(#[trigger] res[i]) by {
            if i < q {
                assert(res[i] == r[i]);
            } else if i > q {
                assert(res[i] == r[i - 1]);
            }
        }
    }
}

/// Any prefix of a sorted sequence is sorted.
pub proof fn lemma_sorted_take<T>(s: Seq<T>, n: int, before: spec_fn(T, T) -> bool)
    requires
        sorted_by(s, before),
        0 <= n <= s.len(),
    ensures
        sorted_by(s.take(n), before),
{
    assert forall|i: int, j: int| 0 <= i < j < s.take(n).len() implies !before(#[trigger] s.take(n)[j], #[trigger] s.take(n)[i]) by {
        assert(s.take(n)[i] == s[i] && s.take(n)[j] == s[j]);
    }
}

/// The order of `str` is never both ways.
pub proof fn lemma_seq_lt_asym(a: Seq<char>, b: Seq<char>)
    ensures
        seq_lt(a, b) ==> !seq_lt(b, a),
    decreases a.len(),
{
    if a.len() > 0 && b.len() > 0 && (a[0] as u32) == (b[0] as u32) {
        lemma_seq_lt_asym(a.drop_first(), b.drop_first());
    }
}

/// The order of `str` is transitive.
pub proof fn lemma_seq_lt_trans(a: Seq<char>, b: Seq<char>, c: Seq<char>)
    ensures
        seq_lt(a, b) && seq_lt(b, c) ==> seq_lt(a, c),
    decreases a.len(),
{
    if a.len() > 0 && b.len() > 0 && c.len() > 0 {
        lemma_seq_lt_trans(a.drop_first(), b.drop_first(), c.drop_first());
    }
}

/// The order of `str` is a strict order.
pub proof fn lemma_seq_lt_strict()
    ensures
        forall|a: Seq<char>, b: Seq<char>| #[trigger] seq_lt(a, b) ==> !seq_lt(b, a),
        forall|a: Seq<char>, b: Seq<char>, c: Seq<char>|
            #[trigger] seq_lt(a, b) && #[trigger] seq_lt(b, c) ==> seq_lt(a, c),
{
    assert forall|a: Seq<char>, b: Seq<char>| #[trigger] seq_lt(a, b) implies !seq_lt(b, a) by {
        lemma_seq_lt_asym(a, b);
    }
    assert forall|a: Seq<char>, b: Seq<char>, c: Seq<char>|
        #[trigger] seq_lt(a, b) && #[trigger] seq_lt(b, c) implies seq_lt(a, c) by {
        lemma_seq_lt_trans(a, b, c);
    }
}

} // verus!
