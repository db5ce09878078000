//! The search over the grid in overlapping windows: where the next window
//! starts, when the search is done, and how the paths found in the windows
//! are joined into one path through the whole grid.
use vstd::prelude::*;
use crate::path::{
    Point, MAX_COST_BITS, no_repeats, point_eq, remove_backtracks, without_backtracks,
    lemma_without_backtracks_from_input, lemma_without_backtracks_of_no_repeats,
};

verus! {

/// How many words of each text a window holds.
pub const SCORE_BATCH: usize = 200;

/// The part `[lo, hi)` of a sequence of `len` items that skipping `start`
/// items and then taking `batch` items leaves.
pub fn window_range(len: usize, start: usize, batch: usize) -> (r: (usize, usize))
    ensures
        r.0 == (if start <= len { start } else { len }),
        r.1 == r.0 + (if batch <= len - r.0 { batch as int } else { len - r.0 }),
{
    let lo = if start <= len { start } else { len };
    let rest = len - lo;
    let hi = if batch <= rest { lo + batch } else { len };
    (lo, hi)
}

/// How many border windows start `step` words apart within `len` words.
pub open spec fn border_window_count(len: int, step: int) -> int {
    (len + step - 1) / step
}

/// The `i`th window along a border: `long` words from `i * step`, cut at
/// the end of the text.
pub open spec fn border_window(i: int, step: int, long: int, len: int) -> (int, int) {
    let start = i * step;
    (start, if start + long <= len { start + long } else { len })
}

/// The windows along one border of the grid in which the start of the
/// alignment is looked for: they start every `step` words, hold `long`
/// words each, and the last ones are cut at the end of the text.
pub fn border_windows(len: usize, step: usize, long: usize) -> (r: Vec<(usize, usize)>)
    requires
        step > 0,
        len + step <= usize::MAX,
        border_window_count(len as int, step as int) > 0 ==> (border_window_count(len as int, step as int) - 1)
            * step + long <= usize::MAX,
    ensures
        r.len() == border_window_count(len as int, step as int),
        forall|i: int|
            0 <= i < r.len() ==> (#[trigger] r[i]).0 == border_window(i, step as int, long as int, len as int).0
                && r[i].1 == border_window(i, step as int, long as int, len as int).1,
{
    let count = (len + step - 1) / step;
    let mut r: Vec<(usize, usize)> = Vec::new();
    let mut i: usize = 0;
    let mut start: usize = 0;
    while i < count
        invariant
            step > 0,
            len + step <= usize::MAX,
            count == border_window_count(len as int, step as int),
            count > 0 ==> (count - 1) * step + long <= usize::MAX,
            i <= count,
            start == i * step,
            r.len() == i,
            forall|k: int|
                0 <= k < i ==> (#[trigger] r[k]).0 == border_window(k, step as int, long as int, len as int).0
                    && r[k].1 == border_window(k, step as int, long as int, len as int).1,
        decreases count - i,
    {
        assert(start < len) by (nonlinear_arith)
            requires
                start == i * step,
                i < count,
                count == (len + step - 1) / (step as int),
                step > 0,
        ;
        assert(start + step == (i + 1) * step) by (nonlinear_arith)
            requires
                start == i * step,
        ;
        assert(start <= (count - 1) * step) by (nonlinear_arith)
            requires
                start == i * step,
                i < count,
                step > 0,
        ;
        let end = if start + long <= len { start + long } else { len };
        // a window cut short by the end of the text would start after the
        // first one and end before its full length: none such is kept
        if start > 0 && start + long < end {
            i = i + 1;
            start = start + step;
            continue;
        }
        r.push((start, end));
        i = i + 1;
        start = start + step;
    }
    r
}

/// Consecutive border windows overlap or touch when they are at least a
/// step long, so together they cover every word of the text.
pub proof fn lemma_border_windows_cover(len: int, step: int, long: int, w: int)
    requires
        step > 0,
        long >= step,
        0 <= w < len,
    ensures
        exists|i: int|
            0 <= i < border_window_count(len, step) && border_window(i, step, long, len).0 <= w
                < #[trigger] border_window(i, step, long, len).1,
{
    let i = w / step;
    assert(i * step <= w < i * step + step) by (nonlinear_arith)
        requires
            i == w / step,
            step > 0,
            w >= 0,
    ;
    assert(0 <= i < (len + step - 1) / step) by (nonlinear_arith)
        requires
            i * step <= w,
            w < len,
            step > 0,
            w >= 0,
            i == w / step,
    ;
    assert(border_window(i, step, long, len).0 <= w < border_window(i, step, long, len).1);
}

/// What the search does after the path through one window is known.
#[derive(Clone, Copy, PartialEq, Eq, Debug)]
pub enum WindowStep {
    /// The path reached the last word of one of the texts.
    Done,
    /// The next window starts at these word offsets of the two texts.
    Next { left_start: usize, right_start: usize },
}

/// The path through the window reached the end of one of the texts.
pub open spec fn window_reaches_end(path: Seq<Point>, left_start: int, right_start: int, ys_len: int, xs_len: int) -> bool {
    let last = path.last();
    left_start + last.0 + 1 == ys_len || right_start + last.1 + 1 == xs_len
}

/// The decision that follows a window's path: stop at the end of either
/// text, or move both offsets by the middle step of the path (the column
/// of that step advances the left text, its row the right text).
pub open spec fn spec_next_window(path: Seq<Point>, left_start: int, right_start: int, ys_len: int, xs_len: int) -> WindowStep {
    if window_reaches_end(path, left_start, right_start, ys_len, xs_len) {
        WindowStep::Done
    } else {
        let mid = path[(path.len() / 2) as int];
        WindowStep::Next {
            left_start: (left_start + mid.1) as usize,
            right_start: (right_start + mid.0) as usize,
        }
    }
}

/// The offsets and the steps of the path fit the arithmetic of the decision,
/// as far as the decision gets: the right text's end is only looked at when
/// the left one is not reached, and the middle step only when neither is.
pub open spec fn next_window_in_range(path: Seq<Point>, left_start: int, right_start: int, ys_len: int, xs_len: int) -> bool {
    let last = path.last();
    let mid = path[(path.len() / 2) as int];
    &&& path.len() > 0
    &&& left_start + last.0 + 1 <= usize::MAX
    &&& (left_start + last.0 + 1 != ys_len ==> right_start + last.1 + 1 <= usize::MAX)
    &&& (!window_reaches_end(path, left_start, right_start, ys_len, xs_len) ==> {
        &&& left_start + mid.1 <= usize::MAX
        &&& right_start + mid.0 <= usize::MAX
    })
}

/// Whether the decision after this window stays within `usize`.
pub fn next_window_fits(path: &[Point], left_start: usize, right_start: usize, ys_len: usize, xs_len: usize) -> (b: bool)
    ensures
        b == next_window_in_range(path@, left_start as int, right_start as int, ys_len as int, xs_len as int),
{
    if path.len() == 0 {
        return false;
    }
    let last = path[path.len() - 1];
    if last.0 >= usize::MAX - left_start {
        return false;
    }
    if left_start + last.0 + 1 == ys_len {
        return true;
    }
    if last.1 >= usize::MAX - right_start {
        return false;
    }
    if right_start + last.1 + 1 == xs_len {
        return true;
    }
    let mid = path[path.len() / 2];
    mid.1 <= usize::MAX - left_start && mid.0 <= usize::MAX - right_start
}

/// Decides, from the path found in the current window, whether the search
/// is done or where the next window starts.
pub fn next_window(path: &[Point], left_start: usize, right_start: usize, ys_len: usize, xs_len: usize) -> (r: WindowStep)
    requires
        next_window_in_range(path@, left_start as int, right_start as int, ys_len as int, xs_len as int),
    ensures
        r == spec_next_window(path@, left_start as int, right_start as int, ys_len as int, xs_len as int),
        (left_start + path@.last().0 + 1 == ys_len || right_start + path@.last().1 + 1 == xs_len)
            <==> r is Done,
        r matches WindowStep::Next { left_start: l, right_start: rs } ==> {
            &&& l == left_start + path@[(path.len() / 2) as int].1
            &&& rs == right_start + path@[(path.len() / 2) as int].0
        },
{
    let last = path[path.len() - 1];
    if left_start + last.0 + 1 == ys_len || right_start + last.1 + 1 == xs_len {
        WindowStep::Done
    } else {
        let mid = path[path.len() / 2];
        WindowStep::Next { left_start: left_start + mid.1, right_start: right_start + mid.0 }
    }
}

/// The next window is decided by the last step of the path and its middle
/// step alone: the search is done exactly when the last step reaches the end
/// of either text, and otherwise both offsets move by the middle step
/// `path[len / 2]` (its column for the left text, its row for the right),
/// whatever the steps after the middle one are.
pub proof fn law_next_window_moves_by_middle(
    path: Seq<Point>,
    other: Seq<Point>,
    left_start: int,
    right_start: int,
    ys_len: int,
    xs_len: int,
)
    requires
        path.len() > 0,
        other.len() == path.len(),
        other.last() == path.last(),
        forall|i: int| 0 <= i <= path.len() / 2 ==> #[trigger] other[i] == path[i],
        0 <= left_start + path[(path.len() / 2) as int].1 <= usize::MAX,
        0 <= right_start + path[(path.len() / 2) as int].0 <= usize::MAX,
    ensures
        spec_next_window(path, left_start, right_start, ys_len, xs_len)
            == spec_next_window(other, left_start, right_start, ys_len, xs_len),
        (left_start + path.last().0 + 1 == ys_len || right_start + path.last().1 + 1 == xs_len)
            <==> spec_next_window(path, left_start, right_start, ys_len, xs_len) is Done,
        spec_next_window(path, left_start, right_start, ys_len, xs_len) matches WindowStep::Next {
            left_start: l,
            right_start: r,
        } ==> {
            &&& l == left_start + path[(path.len() / 2) as int].1
            &&& r == right_start + path[(path.len() / 2) as int].0
        },
{
    assert(other[(other.len() / 2) as int] == path[(path.len() / 2) as int]);
}

/// The steps that lead along the grid's edge from its corner to the first
/// step of the path: down the first column when the path starts there,
/// otherwise along the first row, each at the highest cost.
pub open spec fn edge_run(first: Point) -> Seq<Point> {
    if first.0 == 0 {
        Seq::new(first.1 as nat, |y: int| (0usize, y as usize, MAX_COST_BITS))
    } else {
        Seq::new(first.0 as nat, |x: int| (x as usize, 0usize, MAX_COST_BITS))
    }
}

/// Extends a path that starts on the first row or column so that it starts
/// at the corner of the grid.
pub fn prepend_edge_run(path: Vec<Point>) -> (r: Vec<Point>)
    requires
        path.len() > 0,
        path[0].0 == 0 || path[0].1 == 0,
    ensures
        r@ == edge_run(path[0]) + path@,
        r[0].0 == 0 && r[0].1 == 0,
{
    let first = path[0];
    let mut run: Vec<Point> = Vec::new();
    if first.0 == 0 {
        let mut y: usize = 0;
        while y < first.1
            invariant
                y <= first.1,
                run@ =~= Seq::new(y as nat, |k: int| (0usize, k as usize, MAX_COST_BITS)),
            decreases first.1 - y,
        {
            run.push((0, y, MAX_COST_BITS));
            y = y + 1;
        }
    } else {
        let mut x: usize = 0;
        while x < first.0
            invariant
                x <= first.0,
                run@ =~= Seq::new(x as nat, |k: int| (k as usize, 0usize, MAX_COST_BITS)),
            decreases first.0 - x,
        {
            run.push((x, 0, MAX_COST_BITS));
            x = x + 1;
        }
    }
    let mut rest = path;
    run.append(&mut rest);
    run
}


/// The path found in one window: the window's number in the search, the
/// offsets of the window in the two texts, and the path in the window's
/// own coordinates.
pub struct WindowPath {
    pub index: usize,
    pub dy: usize,
    pub dx: usize,
    pub points: Vec<Point>,
}

pub open spec fn window_keys(ws: Seq<WindowPath>) -> Seq<usize> {
    ws.map_values(|w: WindowPath| w.index)
}

/// Position `a` comes before position `b` when ordered by key, and by
/// position among equal keys.
pub open spec fn key_before(keys: Seq<usize>, a: int, b: int) -> bool {
    keys[a] < keys[b] || (keys[a] == keys[b] && a < b)
}

/// The first place in `o` holding a position whose key exceeds `k`.
pub open spec fn first_later(o: Seq<int>, keys: Seq<usize>, k: usize) -> int
    decreases o.len(),
{
    if o.len() == 0 {
        0
    } else if keys[o[0]] > k {
        0
    } else {
        1 + first_later(o.drop_first(), keys, k)
    }
}

/// The positions of `keys` in a stable order by key: each position is
/// inserted after every earlier position whose key is not larger.
pub open spec fn stable_order(keys: Seq<usize>) -> Seq<int>
    decreases keys.len(),
{
    if keys.len() == 0 {
        Seq::empty()
    } else {
        let o = stable_order(keys.drop_last());
        o.insert(first_later(o, keys, keys.last()), keys.len() - 1)
    }
}

/// `o` lists every position of `keys` once, by key and then by position.
pub open spec fn is_stable_order(keys: Seq<usize>, o: Seq<int>) -> bool {
    &&& o.len() == keys.len()
    &&& forall|i: int| 0 <= i < o.len() ==> 0 <= #[trigger] o[i] < keys.len()
    &&& forall|i: int, j: int| 0 <= i < j < o.len() ==> key_before(keys, #[trigger] o[i], #[trigger] o[j])
}

proof fn lemma_first_later(o: Seq<int>, keys: Seq<usize>, k: usize)
    ensures
        0 <= first_later(o, keys, k) <= o.len(),
        forall|i: int| 0 <= i < first_later(o, keys, k) ==> keys[#[trigger] o[i]] <= k,
        first_later(o, keys, k) < o.len() ==> keys[o[first_later(o, keys, k)]] > k,
    decreases o.len(),
{
    if o.len() > 0 && keys[o[0]] <= k {
        lemma_first_later(o.drop_first(), keys, k);
        assert forall|i: int| 0 <= i < first_later(o, keys, k) implies keys[#[trigger] o[i]] <= k by {
            if i > 0 {
                assert(o[i] == o.drop_first()[i - 1]);
            }
        }
    }
}

/// The stable order lists every position once, sorted by key and, among
/// equal keys, by position.
pub proof fn lemma_stable_order(keys: Seq<usize>)
    ensures
        is_stable_order(keys, stable_order(keys)),
    decreases keys.len(),
{
    if keys.len() > 0 {
        let n = keys.len() - 1;
        let d = keys.drop_last();
        lemma_stable_order(d);
        let o = stable_order(d);
        let k = keys.last();
        lemma_first_later(o, keys, k);
        let f = first_later(o, keys, k);
        let r = o.insert(f, n);
        assert forall|i: int| 0 <= i < o.len() implies keys[#[trigger] o[i]] == d[o[i]] by {}
        assert forall|i: int| f <= i < o.len() implies keys[#[trigger] o[i]] > k by {
            if i > f {
                assert(key_before(d, o[f], o[i]));
            }
        }
        assert forall|i: int| 0 <= i < r.len() implies 0 <= #[trigger] r[i] < keys.len() by {
            if i > f {
                assert(r[i] == o[i - 1]);
            }
        }
        assert forall|i: int, j: int| 0 <= i < j < r.len() implies key_before(keys, #[trigger] r[i], #[trigger] r[j]) by {
            if i < f && j < f {
                assert(key_before(d, o[i], o[j]));
            } else if i < f && j == f {
            } else if i < f {
                assert(r[j] == o[j - 1]);
                assert(key_before(d, o[i], o[j - 1]));
            } else if i == f {
                assert(r[j] == o[j - 1]);
            } else {
                assert(r[i] == o[i - 1] && r[j] == o[j - 1]);
                assert(key_before(d, o[i - 1], o[j - 1]));
            }
        }
    }
}

/// The positions of `keys`, in stable order by key: the order in which a
/// stable sort by key would leave them.
pub fn stable_order_by_key(keys: &[usize]) -> (o: Vec<usize>)
    ensures
        o@.map_values(|i: usize| i as int) == stable_order(keys@),
{
    let mut order: Vec<usize> = Vec::new();
    let mut n: usize = 0;
    while n < keys.len()
        invariant
            n <= keys.len(),
            order@.map_values(|i: usize| i as int) == stable_order(keys@.take(n as int)),
            forall|i: int| 0 <= i < order.len() ==> #[trigger] order[i] < n,
        decreases keys.len() - n,
    {
        let ghost ks = keys@.take(n + 1);
        let ghost o = order@.map_values(|i: usize| i as int);
        proof {
            assert(ks.drop_last() =~= keys@.take(n as int));
        }
        let k = keys[n];
        let mut f: usize = 0;
        while f < order.len() && keys[order[f]] <= k
            invariant
                f <= order.len(),
                n < keys.len(),
                k == keys@[n as int],
                ks == keys@.take(n + 1),
                o == order@.map_values(|i: usize| i as int),
                forall|i: int| 0 <= i < order.len() ==> #[trigger] order[i] < n,
                forall|i: int| 0 <= i < f ==> ks[#[trigger] o[i]] <= k,
            decreases order.len() - f,
        {
            f = f + 1;
        }
        proof {
            lemma_first_later(o, ks, k);
            let g = first_later(o, ks, k);
            if g < f {
                assert(ks[o[g]] <= k);
            }
            if f < g {
                assert(ks[o[f as int]] == keys@[order[f as int] as int]);
            }
        }
        order.insert(f, n);
        proof {
            assert(order@.map_values(|i: usize| i as int) =~= o.insert(f as int, n as int));
        }
        n = n + 1;
    }
    assert(keys@.take(keys.len() as int) =~= keys@);
    order
}

/// The numbers of the windows, in their order.
pub fn window_numbers(windows: &[WindowPath]) -> (keys: Vec<usize>)
    ensures
        keys@ == window_keys(windows@),
{
    let mut keys: Vec<usize> = Vec::new();
    let mut i: usize = 0;
    while i < windows.len()
        invariant
            i <= windows.len(),
            keys@ == window_keys(windows@).take(i as int),
        decreases windows.len() - i,
    {
        keys.push(windows[i].index);
        assert(keys@ =~= window_keys(windows@).take(i + 1));
        i = i + 1;
    }
    assert(window_keys(windows@).take(windows.len() as int) =~= window_keys(windows@));
    keys
}

/// A window's path moved from the window's coordinates into the grid's.
pub open spec fn shifted(w: WindowPath) -> Seq<Point> {
    w.points@.map_values(|p: Point| ((p.0 + w.dx) as usize, (p.1 + w.dy) as usize, p.2))
}

/// The windows' paths, moved into the grid and concatenated in order `o`.
pub open spec fn concat_in_order(ws: Seq<WindowPath>, o: Seq<int>) -> Seq<Point>
    decreases o.len(),
{
    if o.len() == 0 {
        Seq::empty()
    } else {
        concat_in_order(ws, o.drop_last()) + shifted(ws[o.last()])
    }
}

/// The single path through the grid that the windows' paths make up:
/// concatenated by window number, cut where consecutive windows overlap.
pub open spec fn joined_windows(ws: Seq<WindowPath>) -> Seq<Point> {
    without_backtracks(concat_in_order(ws, stable_order(window_keys(ws))))
}

/// Every position of `keys` occurs in their stable order.
proof fn lemma_stable_order_complete(keys: Seq<usize>)
    ensures
        forall|i: int| 0 <= i < keys.len() ==> stable_order(keys).contains(i),
    decreases keys.len(),
{
    if keys.len() > 0 {
        let d = keys.drop_last();
        lemma_stable_order_complete(d);
        let o = stable_order(d);
        lemma_first_later(o, keys, keys.last());
        let f = first_later(o, keys, keys.last());
        let r = o.insert(f, keys.len() - 1);
        assert forall|i: int| 0 <= i < keys.len() implies r.contains(i) by {
            if i == keys.len() - 1 {
                assert(r[f] == i);
            } else {
                assert(o.contains(i));
                let k = choose|k: int| 0 <= k < o.len() && o[k] == i;
                if k < f {
                    assert(r[k] == i);
                } else {
                    assert(r[k + 1] == i);
                }
            }
        }
    }
}

/// `q` is a step of some window's path, moved by that window's offsets.
pub open spec fn is_moved_step(ws: Seq<WindowPath>, q: Point) -> bool {
    exists|i: int, j: int|
        0 <= i < ws.len() && 0 <= j < ws[i].points.len() && {
            &&& q.0 == #[trigger] ws[i].points@[j].0 + ws[i].dx
            &&& q.1 == ws[i].points@[j].1 + ws[i].dy
            &&& q.2 == ws[i].points@[j].2
        }
}

/// The concatenation holds each step of each listed window, moved by that
/// window's offsets, and nothing else.
proof fn lemma_concat_in_order_steps(ws: Seq<WindowPath>, o: Seq<int>)
    requires
        shifts_fit(ws),
        forall|k: int| 0 <= k < o.len() ==> 0 <= #[trigger] o[k] < ws.len(),
    ensures
        forall|k: int, j: int|
            0 <= k < o.len() && 0 <= j < ws[o[k]].points.len() ==> concat_in_order(ws, o).contains(
                #[trigger] shifted(ws[o[k]])[j],
            ),
        forall|m: int|
            0 <= m < concat_in_order(ws, o).len() ==> is_moved_step(ws, #[trigger] concat_in_order(ws, o)[m]),
    decreases o.len(),
{
    if o.len() > 0 {
        let d = o.drop_last();
        lemma_concat_in_order_steps(ws, d);
        let c = concat_in_order(ws, d);
        let t = shifted(ws[o.last()]);
        let all = concat_in_order(ws, o);
        assert(all == c + t);
        assert forall|k: int, j: int|
            0 <= k < o.len() && 0 <= j < ws[o[k]].points.len() implies all.contains(
                #[trigger] shifted(ws[o[k]])[j],
            ) by {
            if k < d.len() {
                assert(d[k] == o[k]);
                assert(c.contains(shifted(ws[d[k]])[j]));
                let m = choose|m: int| 0 <= m < c.len() && c[m] == shifted(ws[d[k]])[j];
                assert(all[m] == c[m]);
            } else {
                assert(all[c.len() + j] == t[j]);
            }
        }
        assert forall|m: int| 0 <= m < all.len() implies is_moved_step(ws, #[trigger] all[m]) by {
            if m < c.len() {
                assert(all[m] == c[m]);
            } else {
                let j = m - c.len();
                let i = o.last();
                assert(all[m] == t[j]);
                assert(ws[i].points@[j].0 + ws[i].dx <= usize::MAX);
                assert(ws[i].points@[j].1 + ws[i].dy <= usize::MAX);
                assert(all[m].0 == ws[i].points@[j].0 + ws[i].dx);
            }
        }
    }
}

/// How the windows' paths make up the joined path: every step of every
/// window, the first in window order included, goes into the concatenation
/// moved by that window's offsets, `(x + dx, y + dy, cost)`; every step of the
/// joined path is such a moved step; and a single window whose path visits
/// no step twice gives that path moved by its offsets.
pub proof fn law_join_window_paths(ws: Seq<WindowPath>)
    requires
        shifts_fit(ws),
    ensures
        forall|i: int, j: int|
            0 <= i < ws.len() && 0 <= j < ws[i].points.len() ==> concat_in_order(
                ws,
                stable_order(window_keys(ws)),
            ).contains(
                (
                    (#[trigger] ws[i].points@[j].0 + ws[i].dx) as usize,
                    (ws[i].points@[j].1 + ws[i].dy) as usize,
                    ws[i].points@[j].2,
                ),
            ),
        forall|m: int|
            0 <= m < joined_windows(ws).len() ==> is_moved_step(ws, #[trigger] joined_windows(ws)[m]),
        ws.len() == 1 && no_repeats(ws[0].points@) ==> {
            &&& joined_windows(ws).len() == ws[0].points.len()
            &&& forall|m: int|
                0 <= m < joined_windows(ws).len() ==> {
                    &&& #[trigger] joined_windows(ws)[m].0 == ws[0].points@[m].0 + ws[0].dx
                    &&& joined_windows(ws)[m].1 == ws[0].points@[m].1 + ws[0].dy
                    &&& joined_windows(ws)[m].2 == ws[0].points@[m].2
                }
        },
{
    let keys = window_keys(ws);
    let o = stable_order(keys);
    lemma_stable_order(keys);
    lemma_stable_order_complete(keys);
    lemma_concat_in_order_steps(ws, o);
    let c = concat_in_order(ws, o);
    assert forall|i: int, j: int|
        0 <= i < ws.len() && 0 <= j < ws[i].points.len() implies c.contains(
            (
                (#[trigger] ws[i].points@[j].0 + ws[i].dx) as usize,
                (ws[i].points@[j].1 + ws[i].dy) as usize,
                ws[i].points@[j].2,
            ),
        ) by {
        assert(o.contains(i));
        let k = choose|k: int| 0 <= k < o.len() && o[k] == i;
        assert(c.contains(shifted(ws[o[k]])[j]));
    }
    let r = joined_windows(ws);
    lemma_without_backtracks_from_input(c);
    assert forall|m: int| 0 <= m < r.len() implies is_moved_step(ws, #[trigger] r[m]) by {
        assert(c.contains(r[m]));
        let n = choose|n: int| 0 <= n < c.len() && c[n] == r[m];
        assert(is_moved_step(ws, c[n]));
    }
    if ws.len() == 1 && no_repeats(ws[0].points@) {
        let w = ws[0];
        assert(o.len() == 1 && o[0] == 0);
        assert(o.drop_last() =~= Seq::<int>::empty());
        assert(concat_in_order(ws, o.drop_last()) =~= Seq::<Point>::empty());
        assert(c =~= shifted(w));
        assert(no_repeats(c)) by {
            assert forall|a: int, b: int| 0 <= a < b < c.len() implies !point_eq(#[trigger] c[a], #[trigger] c[b]) by {
                assert(ws[0].points@[a].0 + ws[0].dx <= usize::MAX);
                assert(ws[0].points@[b].0 + ws[0].dx <= usize::MAX);
                assert(!point_eq(w.points@[a], w.points@[b]));
            }
        }
        lemma_without_backtracks_of_no_repeats(c);
        assert forall|m: int| 0 <= m < r.len() implies {
            &&& #[trigger] r[m].0 == ws[0].points@[m].0 + ws[0].dx
            &&& r[m].1 == ws[0].points@[m].1 + ws[0].dy
            &&& r[m].2 == ws[0].points@[m].2
        } by {
            assert(ws[0].points@[m].0 + ws[0].dx <= usize::MAX);
        }
    }
}

/// Moving every window's path by its offsets stays within `usize`.
pub open spec fn shifts_fit(ws: Seq<WindowPath>) -> bool {
    forall|i: int, j: int|
        0 <= i < ws.len() && 0 <= j < ws[i].points.len() ==> {
            &&& #[trigger] ws[i].points@[j].0 + ws[i].dx <= usize::MAX
            &&& ws[i].points@[j].1 + ws[i].dy <= usize::MAX
        }
}

/// Whether every window's path can be moved by its offsets within `usize`.
pub fn window_shifts_fit(windows: &[WindowPath]) -> (b: bool)
    ensures
        b == shifts_fit(windows@),
{
    let mut i: usize = 0;
    while i < windows.len()
        invariant
            i <= windows.len(),
            forall|a: int, j: int|
                0 <= a < i && 0 <= j < windows@[a].points.len() ==> {
                    &&& #[trigger] windows@[a].points@[j].0 + windows@[a].dx <= usize::MAX
                    &&& windows@[a].points@[j].1 + windows@[a].dy <= usize::MAX
                },
        decreases windows.len() - i,
    {
        let w = &windows[i];
        let mut j: usize = 0;
        while j < w.points.len()
            invariant
                i < windows.len(),
                w == windows@[i as int],
                j <= w.points.len(),
                forall|a: int, b: int|
                    0 <= a < i && 0 <= b < windows@[a].points.len() ==> {
                        &&& #[trigger] windows@[a].points@[b].0 + windows@[a].dx <= usize::MAX
                        &&& windows@[a].points@[b].1 + windows@[a].dy <= usize::MAX
                    },
                forall|b: int|
                    0 <= b < j ==> {
                        &&& #[trigger] w.points@[b].0 + w.dx <= usize::MAX
                        &&& w.points@[b].1 + w.dy <= usize::MAX
                    },
            decreases w.points.len() - j,
        {
            let p = w.points[j];
            if p.0 > usize::MAX - w.dx || p.1 > usize::MAX - w.dy {
                return false;
            }
            j = j + 1;
        }
        i = i + 1;
    }
    true
}

/// Joins the paths found in the windows into one path through the grid:
/// orders them by window number, moves each into the grid's coordinates,
/// concatenates them and cuts the branches that overlapping windows leave.
pub fn join_window_paths(windows: &[WindowPath]) -> (r: Vec<Point>)
    requires
        shifts_fit(windows@),
    ensures
        r@ == joined_windows(windows@),
        no_repeats(r@),
        forall|m: int| 0 <= m < r.len() ==> is_moved_step(windows@, #[trigger] r@[m]),
        windows.len() == 1 && no_repeats(windows@[0].points@) ==> {
            &&& r.len() == windows@[0].points.len()
            &&& forall|m: int|
                0 <= m < r.len() ==> {
                    &&& #[trigger] r@[m].0 == windows@[0].points@[m].0 + windows@[0].dx
                    &&& r@[m].1 == windows@[0].points@[m].1 + windows@[0].dy
                    &&& r@[m].2 == windows@[0].points@[m].2
                }
        },
{
    let keys = window_numbers(windows);
    let order = stable_order_by_key(&keys);
    let ghost o = order@.map_values(|i: usize| i as int);
    proof {
        lemma_stable_order(window_keys(windows@));
        law_join_window_paths(windows@);
    }
    let mut all: Vec<Point> = Vec::new();
    let mut k: usize = 0;
    while k < order.len()
        invariant
            k <= order.len(),
            o == order@.map_values(|i: usize| i as int),
            o == stable_order(window_keys(windows@)),
            is_stable_order(window_keys(windows@), o),
            shifts_fit(windows@),
            all@ == concat_in_order(windows@, o.take(k as int)),
        decreases order.len() - k,
    {
        assert(0 <= o[k as int] < windows.len());
        let w = &windows[order[k]];
        let ghost before = all@;
        let mut j: usize = 0;
        while j < w.points.len()
            invariant
                j <= w.points.len(),
                w == windows@[order[k as int] as int],
                shifts_fit(windows@),
                order[k as int] < windows.len(),
                all@ == before + shifted(*w).take(j as int),
            decreases w.points.len() - j,
        {
            let p = w.points[j];
            assert(windows@[order[k as int] as int].points@[j as int] == p);
            all.push((p.0 + w.dx, p.1 + w.dy, p.2));
            assert(shifted(*w).take(j + 1) =~= shifted(*w).take(j as int).push(((p.0 + w.dx) as usize, (p.1 + w.dy) as usize, p.2)));
            j = j + 1;
        }
        proof {
            assert(shifted(*w).take(w.points.len() as int) =~= shifted(*w));
            assert(o.take(k + 1).drop_last() =~= o.take(k as int));
            assert(o.take(k + 1).last() == order[k as int] as int);
        }
        k = k + 1;
    }
    assert(o.take(order.len() as int) =~= o);
    remove_backtracks(&all)
}

} // verus!
