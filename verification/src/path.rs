//! Alignment paths: steps `(x, y, cost)` through the similarity grid, where
//! the cost is held as the bit pattern of a 32-bit float. Two steps are the
//! same step when their coordinates agree and their costs compare equal as
//! floats do (no NaN is equal to anything, and the two zeros are equal).
use vstd::prelude::*;

verus! {

/// A step of an alignment path: column, row and the bits of its cost.
pub type Point = (usize, usize, u32);

/// The bits of the cost `1.0`, the highest a cell can carry.
pub const MAX_COST_BITS: u32 = 0x3f80_0000u32;

/// The bit pattern is that of a NaN: exponent all ones, mantissa not zero.
pub open spec fn cost_is_nan(b: u32) -> bool {
    (b & 0x7f80_0000u32) == 0x7f80_0000u32 && (b & 0x007f_ffffu32) != 0
}

/// Float equality on bit patterns: neither is a NaN, and the bits agree or
/// both are zeros of either sign.
pub open spec fn cost_eq(a: u32, b: u32) -> bool {
    !cost_is_nan(a) && !cost_is_nan(b) && (a == b || ((a | b) & 0x7fff_ffffu32) == 0)
}

pub open spec fn point_eq(p: Point, q: Point) -> bool {
    p.0 == q.0 && p.1 == q.1 && cost_eq(p.2, q.2)
}

/// Compares two costs as floats compare.
pub fn costs_equal(a: u32, b: u32) -> (r: bool)
    ensures
        r == cost_eq(a, b),
{
    let a_nan = (a & 0x7f80_0000u32) == 0x7f80_0000u32 && (a & 0x007f_ffffu32) != 0;
    let b_nan = (b & 0x7f80_0000u32) == 0x7f80_0000u32 && (b & 0x007f_ffffu32) != 0;
    !a_nan && !b_nan && (a == b || ((a | b) & 0x7fff_ffffu32) == 0)
}

/// Compares two steps: same cell and equal costs.
pub fn points_equal(p: Point, q: Point) -> (r: bool)
    ensures
        r == point_eq(p, q),
{
    p.0 == q.0 && p.1 == q.1 && costs_equal(p.2, q.2)
}

/// The index of the first step of `r` equal to `p`, or `r.len()` if none is.
pub open spec fn first_match(r: Seq<Point>, p: Point) -> int
    decreases r.len(),
{
    if r.len() == 0 {
        0
    } else if point_eq(r[0], p) {
        0
    } else {
        1 + first_match(r.drop_first(), p)
    }
}

/// Appending `p` to a path: if `p` is already on it, everything from its
/// first occurrence on is discarded first.
pub open spec fn backtrack_step(r: Seq<Point>, p: Point) -> Seq<Point> {
    r.take(first_match(r, p)).push(p)
}

/// The path that remains of `s` once every revisited step has cut off the
/// branch taken since its first visit.
pub open spec fn without_backtracks(s: Seq<Point>) -> Seq<Point>
    decreases s.len(),
{
    if s.len() == 0 {
        Seq::empty()
    } else {
        backtrack_step(without_backtracks(s.drop_last()), s.last())
    }
}

/// No step occurs twice.
pub open spec fn no_repeats(s: Seq<Point>) -> bool {
    forall|i: int, j: int| 0 <= i < j < s.len() ==> !point_eq(#[trigger] s[i], #[trigger] s[j])
}

pub proof fn lemma_first_match(r: Seq<Point>, p: Point)
    ensures
        0 <= first_match(r, p) <= r.len(),
        forall|i: int| 0 <= i < first_match(r, p) ==> !point_eq(#[trigger] r[i], p),
        first_match(r, p) < r.len() ==> point_eq(r[first_match(r, p)], p),
    decreases r.len(),
{
    if r.len() > 0 && !point_eq(r[0], p) {
        lemma_first_match(r.drop_first(), p);
        assert forall|i: int| 0 <= i < first_match(r, p) implies !point_eq(#[trigger] r[i], p) by {
            if i > 0 {
                assert(r[i] == r.drop_first()[i - 1]);
            }
        }
    }
}

/// Cuts the branches of a path that a later return to an earlier step has
/// abandoned: each step that is already on the path truncates the path
/// after its first occurrence before it is appended again.
pub fn remove_backtracks(path: &[Point]) -> (r: Vec<Point>)
    ensures
        r@ == without_backtracks(path@),
        no_repeats(r@),
        r.len() <= path.len(),
        path.len() > 0 ==> r.len() > 0 && r@.last() == path@.last(),
{
    proof {
        lemma_without_backtracks_no_repeats(path@);
        lemma_without_backtracks_ends(path@);
    }
    let mut result: Vec<Point> = Vec::new();
    let mut k: usize = 0;
    while k < path.len()
        invariant
            k <= path.len(),
            result@ == without_backtracks(path@.take(k as int)),
        decreases path.len() - k,
    {
        let p = path[k];
        let mut i: usize = 0;
        while i < result.len() && !points_equal(result[i], p)
            invariant
                i <= result.len(),
                forall|j: int| 0 <= j < i ==> !point_eq(#[trigger] result@[j], p),
            decreases result.len() - i,
        {
            i = i + 1;
        }
        proof {
            lemma_first_match(result@, p);
            let f = first_match(result@, p);
            if f < i {
                assert(!point_eq(result@[f], p));
            }
            if i < f {
                assert(!point_eq(result@[i as int], p));
            }
            assert(path@.take(k + 1).drop_last() =~= path@.take(k as int));
            assert(path@.take(k + 1).last() == p);
        }
        result.truncate(i);
        result.push(p);
        k = k + 1;
    }
    assert(path@.take(path.len() as int) =~= path@);
    result
}

/// A path without backtracks visits no step twice.
pub proof fn lemma_without_backtracks_no_repeats(s: Seq<Point>)
    ensures
        no_repeats(without_backtracks(s)),
    decreases s.len(),
{
    if s.len() > 0 {
        let r = without_backtracks(s.drop_last());
        lemma_without_backtracks_no_repeats(s.drop_last());
        lemma_first_match(r, s.last());
        let t = without_backtracks(s);
        let f = first_match(r, s.last());
        assert forall|i: int, j: int| 0 <= i < j < t.len() implies !point_eq(#[trigger] t[i], #[trigger] t[j]) by {
            if j == t.len() - 1 {
                assert(t[i] == r[i]);
            } else {
                assert(t[i] == r[i] && t[j] == r[j]);
            }
        }
    }
}

/// A path that visits no step twice has nothing to cut.
pub proof fn lemma_without_backtracks_of_no_repeats(s: Seq<Point>)
    requires
        no_repeats(s),
    ensures
        without_backtracks(s) == s,
    decreases s.len(),
{
    if s.len() > 0 {
        let d = s.drop_last();
        assert(no_repeats(d)) by {
            assert forall|i: int, j: int| 0 <= i < j < d.len() implies !point_eq(#[trigger] d[i], #[trigger] d[j]) by {
                assert(d[i] == s[i] && d[j] == s[j]);
            }
        }
        lemma_without_backtracks_of_no_repeats(d);
        lemma_first_match(d, s.last());
        let f = first_match(d, s.last());
        if f < d.len() {
            assert(d[f] == s[f]);
            assert(point_eq(s[f], s[s.len() - 1]));
        }
        assert(d.take(f) =~= d);
        assert(d.push(s.last()) =~= s);
    }
}

/// The path ends where the input ends, and is empty only if the input is.
pub proof fn lemma_without_backtracks_ends(s: Seq<Point>)
    ensures
        without_backtracks(s).len() == 0 <==> s.len() == 0,
        s.len() > 0 ==> without_backtracks(s).last() == s.last(),
        without_backtracks(s).len() <= s.len(),
    decreases s.len(),
{
    if s.len() > 0 {
        lemma_without_backtracks_ends(s.drop_last());
        lemma_first_match(without_backtracks(s.drop_last()), s.last());
    }
}

/// Every step of the result is a step of the input.
pub proof fn lemma_without_backtracks_from_input(s: Seq<Point>)
    ensures
        forall|i: int|
            0 <= i < without_backtracks(s).len() ==> s.contains(#[trigger] without_backtracks(s)[i]),
    decreases s.len(),
{
    if s.len() > 0 {
        let d = s.drop_last();
        lemma_without_backtracks_from_input(d);
        lemma_first_match(without_backtracks(d), s.last());
        let r = without_backtracks(d);
        let t = without_backtracks(s);
        assert forall|i: int| 0 <= i < t.len() implies s.contains(#[trigger] t[i]) by {
            if i == t.len() - 1 {
                assert(s[s.len() - 1] == t[i]);
            } else {
                assert(t[i] == r[i]);
                assert(d.contains(r[i]));
                let j = choose|j: int| 0 <= j < d.len() && d[j] == r[i];
                assert(s[j] == d[j]);
            }
        }
    }
}

/// Removing backtracks twice removes no more than doing it once.
pub proof fn lemma_remove_backtracks_idempotent(s: Seq<Point>)
    ensures
        without_backtracks(without_backtracks(s)) == without_backtracks(s),
{
    lemma_without_backtracks_no_repeats(s);
    lemma_without_backtracks_of_no_repeats(without_backtracks(s));
}


/// How many steps of `s` align something with word `w` of the text.
pub open spec fn word_uses(s: Seq<Point>, w: usize) -> nat
    decreases s.len(),
{
    if s.len() == 0 {
        0
    } else {
        word_uses(s.drop_last(), w) + (if s.last().1 == w { 1nat } else { 0nat })
    }
}

/// The steps of `s`, in order, whose word appears in no other step of `all`.
pub open spec fn steps_used_once(all: Seq<Point>, s: Seq<Point>) -> Seq<Point>
    decreases s.len(),
{
    if s.len() == 0 {
        Seq::empty()
    } else if word_uses(all, s.last().1) == 1 {
        steps_used_once(all, s.drop_last()).push(s.last())
    } else {
        steps_used_once(all, s.drop_last())
    }
}

proof fn lemma_word_uses_bounded(s: Seq<Point>, w: usize)
    ensures
        word_uses(s, w) <= s.len(),
    decreases s.len(),
{
    if s.len() > 0 {
        lemma_word_uses_bounded(s.drop_last(), w);
    }
}

/// The uses of a word are the steps of the path whose word index is that
/// word, whatever their costs.
pub proof fn law_word_uses(s: Seq<Point>, w: usize)
    ensures
        word_uses(s, w) == s.filter(|p: Point| p.1 == w).len(),
    decreases s.len(),
{
    reveal(Seq::filter);
    if s.len() > 0 {
        law_word_uses(s.drop_last(), w);
    }
}

/// Counts the steps of the path that align something with word `w`.
fn count_word_uses(path: &[Point], w: usize) -> (n: usize)
    ensures
        n == word_uses(path@, w),
        n == path@.filter(|p: Point| p.1 == w).len(),
{
    proof {
        law_word_uses(path@, w);
    }
    let mut n: usize = 0;
    let mut j: usize = 0;
    while j < path.len()
        invariant
            j <= path.len(),
            n == word_uses(path@.take(j as int), w),
        decreases path.len() - j,
    {
        proof {
            assert(path@.take(j + 1).drop_last() =~= path@.take(j as int));
            lemma_word_uses_bounded(path@.take(j as int), w);
        }
        if path[j].1 == w {
            n = n + 1;
        }
        j = j + 1;
    }
    assert(path@.take(path.len() as int) =~= path@);
    n
}

/// Keeps only the steps whose word no other step aligns: a word matched
/// more than once is ambiguous and gets no timing.
pub fn keep_unambiguous(path: &[Point]) -> (r: Vec<Point>)
    ensures
        r@ == steps_used_once(path@, path@),
        forall|a: int|
            0 <= a < r.len() ==> exists|j: int|
                0 <= j < path.len() && path[j] == #[trigger] r[a] && forall|k: int|
                    0 <= k < path.len() && k != j ==> path[k].1 != path[j].1,
        forall|j: int|
            0 <= j < path.len() && (forall|k: int| 0 <= k < path.len() && k != j ==> path[k].1 != path[j].1)
                ==> r@.contains(#[trigger] path[j]),
        forall|a: int, b: int| 0 <= a < b < r.len() ==> (#[trigger] r[a]).1 != (#[trigger] r[b]).1,
{
    proof {
        law_keep_unambiguous(path@);
    }
    let mut r: Vec<Point> = Vec::new();
    let mut i: usize = 0;
    while i < path.len()
        invariant
            i <= path.len(),
            r@ == steps_used_once(path@, path@.take(i as int)),
        decreases path.len() - i,
    {
        proof {
            assert(path@.take(i + 1).drop_last() =~= path@.take(i as int));
        }
        let p = path[i];
        if count_word_uses(path, p.1) == 1 {
            r.push(p);
        }
        i = i + 1;
    }
    assert(path@.take(path.len() as int) =~= path@);
    r
}

/// The kept steps are steps of the path whose word is used once, and every
/// such step is kept: no word is left with two timings.
pub proof fn lemma_steps_used_once(all: Seq<Point>, s: Seq<Point>)
    ensures
        forall|i: int|
            0 <= i < steps_used_once(all, s).len() ==> word_uses(all, #[trigger] steps_used_once(all, s)[i].1) == 1,
        forall|i: int|
            0 <= i < steps_used_once(all, s).len() ==> s.contains(#[trigger] steps_used_once(all, s)[i]),
        forall|j: int| 0 <= j < s.len() && word_uses(all, s[j].1) == 1 ==> steps_used_once(all, s).contains(#[trigger] s[j]),
    decreases s.len(),
{
    if s.len() > 0 {
        let d = s.drop_last();
        lemma_steps_used_once(all, d);
        let t = steps_used_once(all, s);
        let u = steps_used_once(all, d);
        assert forall|i: int| 0 <= i < t.len() implies #[trigger] word_uses(all, t[i].1) == 1 && s.contains(t[i]) by {
            if i < u.len() {
                assert(t[i] == u[i]);
                assert(d.contains(u[i]));
                let j = choose|j: int| 0 <= j < d.len() && d[j] == u[i];
                assert(s[j] == d[j]);
            } else {
                assert(s[s.len() - 1] == t[i]);
            }
        }
        assert forall|j: int| 0 <= j < s.len() && word_uses(all, s[j].1) == 1 implies t.contains(#[trigger] s[j]) by {
            if j < s.len() - 1 {
                assert(s[j] == d[j]);
                let k = choose|k: int| 0 <= k < u.len() && u[k] == d[j];
                assert(t[k] == u[k]);
            } else {
                assert(t[t.len() - 1] == s[j]);
            }
        }
    }
}


/// No step of `s` aligns word `w` exactly when the count is zero.
proof fn lemma_word_uses_zero(s: Seq<Point>, w: usize)
    ensures
        word_uses(s, w) == 0 <==> forall|j: int| 0 <= j < s.len() ==> (#[trigger] s[j]).1 != w,
    decreases s.len(),
{
    if s.len() > 0 {
        let d = s.drop_last();
        lemma_word_uses_zero(d, w);
        if word_uses(s, w) == 0 {
            assert forall|j: int| 0 <= j < s.len() implies (#[trigger] s[j]).1 != w by {
                if j < d.len() {
                    assert(s[j] == d[j]);
                }
            }
        }
        if forall|j: int| 0 <= j < s.len() ==> (#[trigger] s[j]).1 != w {
            assert forall|j: int| 0 <= j < d.len() implies (#[trigger] d[j]).1 != w by {
                assert(s[j] == d[j]);
            }
            assert(s[s.len() - 1].1 != w);
        }
    }
}

/// When the count is one, exactly one step of `s` aligns word `w`.
proof fn lemma_word_uses_one_sound(s: Seq<Point>, w: usize)
    requires
        word_uses(s, w) == 1,
    ensures
        exists|j: int|
            0 <= j < s.len() && (#[trigger] s[j]).1 == w && forall|k: int|
                0 <= k < s.len() && k != j ==> s[k].1 != w,
    decreases s.len(),
{
    let d = s.drop_last();
    let n = s.len() - 1;
    if s[n].1 == w {
        lemma_word_uses_zero(d, w);
        assert forall|k: int| 0 <= k < s.len() && k != n implies s[k].1 != w by {
            assert(s[k] == d[k]);
        }
        assert(s[n].1 == w);
    } else {
        lemma_word_uses_one_sound(d, w);
        let j = choose|j: int|
            0 <= j < d.len() && (#[trigger] d[j]).1 == w && forall|k: int|
                0 <= k < d.len() && k != j ==> d[k].1 != w;
        assert(s[j] == d[j]);
        assert forall|k: int| 0 <= k < s.len() && k != j implies s[k].1 != w by {
            if k < n {
                assert(s[k] == d[k]);
            }
        }
    }
}

/// When exactly one step of `s`, the one at `j`, aligns word `w`, the count
/// is one.
proof fn lemma_word_uses_one_complete(s: Seq<Point>, w: usize, j: int)
    requires
        0 <= j < s.len(),
        s[j].1 == w,
        forall|k: int| 0 <= k < s.len() && k != j ==> s[k].1 != w,
    ensures
        word_uses(s, w) == 1,
    decreases s.len(),
{
    let d = s.drop_last();
    let n = s.len() - 1;
    if j == n {
        assert forall|k: int| 0 <= k < d.len() implies (#[trigger] d[k]).1 != w by {
            assert(s[k] == d[k]);
        }
        lemma_word_uses_zero(d, w);
    } else {
        assert(d[j] == s[j]);
        assert forall|k: int| 0 <= k < d.len() && k != j implies d[k].1 != w by {
            assert(s[k] == d[k]);
        }
        lemma_word_uses_one_complete(d, w, j);
    }
}

/// Over the prefix of length `n`: the kept steps are steps of that prefix,
/// and no two of them share a word.
proof fn lemma_kept_prefix(all: Seq<Point>, n: int)
    requires
        0 <= n <= all.len(),
    ensures
        forall|a: int|
            0 <= a < steps_used_once(all, all.take(n)).len() ==> exists|j: int|
                0 <= j < n && all[j] == #[trigger] steps_used_once(all, all.take(n))[a],
        forall|a: int, b: int|
            0 <= a < b < steps_used_once(all, all.take(n)).len() ==> (
            #[trigger] steps_used_once(all, all.take(n))[a]).1 != (
            #[trigger] steps_used_once(all, all.take(n))[b]).1,
    decreases n,
{
    if n > 0 {
        lemma_kept_prefix(all, n - 1);
        let t = all.take(n);
        assert(t.drop_last() =~= all.take(n - 1));
        assert(t.last() == all[n - 1]);
        let u = steps_used_once(all, all.take(n - 1));
        let r = steps_used_once(all, t);
        let w = all[n - 1].1;
        if word_uses(all, w) == 1 {
            lemma_word_uses_one_sound(all, w);
            let j0 = choose|j: int|
                0 <= j < all.len() && (#[trigger] all[j]).1 == w && forall|k: int|
                    0 <= k < all.len() && k != j ==> all[k].1 != w;
            assert(j0 == n - 1);
            assert forall|a: int| 0 <= a < r.len() implies exists|j: int| 0 <= j < n && all[j] == #[trigger] r[a] by {
                if a < u.len() {
                    assert(r[a] == u[a]);
                    let j = choose|j: int| 0 <= j < n - 1 && all[j] == #[trigger] u[a];
                } else {
                    assert(all[n - 1] == r[a]);
                }
            }
            assert forall|a: int, b: int| 0 <= a < b < r.len() implies (#[trigger] r[a]).1 != (#[trigger] r[b]).1 by {
                if b < u.len() {
                    assert(r[a] == u[a] && r[b] == u[b]);
                } else {
                    assert(r[a] == u[a]);
                    let j = choose|j: int| 0 <= j < n - 1 && all[j] == #[trigger] u[a];
                    assert(all[j].1 != w);
                }
            }
        } else {
            assert(r == u);
            assert forall|a: int| 0 <= a < r.len() implies exists|j: int| 0 <= j < n && all[j] == #[trigger] r[a] by {
                let j = choose|j: int| 0 <= j < n - 1 && all[j] == #[trigger] u[a];
            }
        }
    }
}

/// A step is kept exactly when no other step of the path aligns its word,
/// whatever the costs: every kept step is a step of the path whose word no
/// other step aligns, every such step is kept, and no two kept steps share
/// a word.
pub proof fn law_keep_unambiguous(path: Seq<Point>)
    ensures
        forall|a: int|
            0 <= a < steps_used_once(path, path).len() ==> exists|j: int|
                0 <= j < path.len() && path[j] == #[trigger] steps_used_once(path, path)[a] && forall|k: int|
                    0 <= k < path.len() && k != j ==> path[k].1 != path[j].1,
        forall|j: int|
            0 <= j < path.len() && (forall|k: int| 0 <= k < path.len() && k != j ==> path[k].1 != path[j].1)
                ==> steps_used_once(path, path).contains(#[trigger] path[j]),
        forall|a: int, b: int|
            0 <= a < b < steps_used_once(path, path).len() ==> (#[trigger] steps_used_once(path, path)[a]).1 != (
            #[trigger] steps_used_once(path, path)[b]).1,
{
    let r = steps_used_once(path, path);
    lemma_steps_used_once(path, path);
    lemma_kept_prefix(path, path.len() as int);
    assert(path.take(path.len() as int) =~= path);
    assert forall|a: int| 0 <= a < r.len() implies exists|j: int|
        0 <= j < path.len() && path[j] == #[trigger] r[a] && forall|k: int|
            0 <= k < path.len() && k != j ==> path[k].1 != path[j].1 by {
        let w = r[a].1;
        assert(word_uses(path, w) == 1);
        lemma_word_uses_one_sound(path, w);
        let j0 = choose|j: int|
            0 <= j < path.len() && (#[trigger] path[j]).1 == w && forall|k: int|
                0 <= k < path.len() && k != j ==> path[k].1 != w;
        assert(path.contains(r[a]));
        let j1 = choose|j: int| 0 <= j < path.len() && path[j] == r[a];
        assert(j1 == j0);
    }
    assert forall|j: int|
        0 <= j < path.len() && (forall|k: int| 0 <= k < path.len() && k != j ==> path[k].1 != path[j].1)
            implies r.contains(#[trigger] path[j]) by {
        lemma_word_uses_one_complete(path, path[j].1, j);
    }
}

} // verus!
