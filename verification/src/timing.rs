//! Which timing each piece of the text receives: pieces that are words take
//! the timing of the spoken word that the alignment path matched with them.
use vstd::prelude::*;
use crate::path::Point;

verus! {

/// For one piece of the text: whether it is a word, and the position among
/// the timed words of the spoken word whose timing it takes, if any.
#[derive(Clone, Copy, PartialEq, Eq, Debug)]
pub struct ChunkTiming {
    pub is_word: bool,
    pub segment: Option<usize>,
}

/// The last place in `words` that holds piece `i`.
pub open spec fn last_place(words: Seq<usize>, i: usize) -> Option<int>
    decreases words.len(),
{
    if words.len() == 0 {
        None
    } else if words.last() == i {
        Some(words.len() - 1)
    } else {
        last_place(words.drop_last(), i)
    }
}

/// The timed word that the last step of the path aligned with word `k`
/// points at, if any step did.
pub open spec fn last_timing(path: Seq<Point>, k: int, timed: Seq<usize>) -> Option<usize>
    decreases path.len(),
{
    if path.len() == 0 {
        None
    } else if path.last().1 == k {
        Some(timed[path.last().0 as int])
    } else {
        last_timing(path.drop_last(), k, timed)
    }
}

/// The timing of piece `i` of the text.
pub open spec fn chunk_timing(i: usize, words: Seq<usize>, path: Seq<Point>, timed: Seq<usize>) -> ChunkTiming {
    match last_place(words, i) {
        None => ChunkTiming { is_word: false, segment: None },
        Some(k) => ChunkTiming { is_word: true, segment: last_timing(path, k, timed) },
    }
}

/// Assigns to each of `chunk_count` pieces of the text its timing. `words`
/// lists the pieces that are words; each step `(t, w, _)` of the path gives
/// word `w` the timed word at `timed_words[t]`.
pub fn plan_chunk_timings(chunk_count: usize, words: &[usize], path: &[Point], timed_words: &[usize]) -> (r: Vec<ChunkTiming>)
    requires
        forall|j: int| 0 <= j < path.len() ==> (#[trigger] path@[j]).0 < timed_words.len(),
    ensures
        r.len() == chunk_count,
        forall|i: int| 0 <= i < chunk_count ==> #[trigger] r[i] == chunk_timing(i as usize, words@, path@, timed_words@),
{
    let mut word_of: Vec<Option<usize>> = Vec::new();
    let mut i: usize = 0;
    while i < chunk_count
        invariant
            i <= chunk_count,
            word_of.len() == i,
            forall|c: int| 0 <= c < i ==> #[trigger] word_of[c] == None::<usize>,
        decreases chunk_count - i,
    {
        word_of.push(None);
        i = i + 1;
    }
    let mut k: usize = 0;
    while k < words.len()
        invariant
            k <= words.len(),
            word_of.len() == chunk_count,
            forall|c: int|
                0 <= c < chunk_count ==> #[trigger] word_of[c] == match last_place(words@.take(k as int), c as usize) {
                    Some(p) => Some(p as usize),
                    None => None,
                },
        decreases words.len() - k,
    {
        proof {
            assert(words@.take(k + 1).drop_last() =~= words@.take(k as int));
        }
        let c = words[k];
        if c < chunk_count {
            word_of.set(c, Some(k));
        }
        k = k + 1;
    }
    proof {
        assert(words@.take(words.len() as int) =~= words@);
    }
    let mut timing_of: Vec<Option<usize>> = Vec::new();
    let mut w: usize = 0;
    while w < words.len()
        invariant
            w <= words.len(),
            timing_of.len() == w,
            forall|c: int| 0 <= c < w ==> #[trigger] timing_of[c] == None::<usize>,
        decreases words.len() - w,
    {
        timing_of.push(None);
        w = w + 1;
    }
    let mut j: usize = 0;
    while j < path.len()
        invariant
            j <= path.len(),
            timing_of.len() == words.len(),
            forall|a: int| 0 <= a < path.len() ==> (#[trigger] path@[a]).0 < timed_words.len(),
            forall|c: int| 0 <= c < words.len() ==> #[trigger] timing_of[c] == last_timing(path@.take(j as int), c, timed_words@),
        decreases path.len() - j,
    {
        proof {
            assert(path@.take(j + 1).drop_last() =~= path@.take(j as int));
        }
        let p = path[j];
        let t = timed_words[p.0];
        if p.1 < words.len() {
            timing_of.set(p.1, Some(t));
        }
        j = j + 1;
    }
    proof {
        assert(path@.take(path.len() as int) =~= path@);
    }
    let mut r: Vec<ChunkTiming> = Vec::new();
    let mut c: usize = 0;
    while c < chunk_count
        invariant
            c <= chunk_count,
            r.len() == c,
            word_of.len() == chunk_count,
            timing_of.len() == words.len(),
            forall|a: int|
                0 <= a < chunk_count ==> #[trigger] word_of[a] == match last_place(words@, a as usize) {
                    Some(p) => Some(p as usize),
                    None => None,
                },
            forall|a: int| 0 <= a < words.len() ==> #[trigger] timing_of[a] == last_timing(path@, a, timed_words@),
            forall|a: int| 0 <= a < c ==> #[trigger] r[a] == chunk_timing(a as usize, words@, path@, timed_words@),
        decreases chunk_count - c,
    {
        let entry = match word_of[c] {
            None => ChunkTiming { is_word: false, segment: None },
            Some(k) => {
                proof {
                    lemma_last_place_bounded(words@, c);
                }
                ChunkTiming { is_word: true, segment: timing_of[k] }
            },
        };
        r.push(entry);
        c = c + 1;
    }
    r
}

proof fn lemma_last_place_bounded(words: Seq<usize>, i: usize)
    ensures
        last_place(words, i) matches Some(p) ==> 0 <= p < words.len() && words[p] == i,
    decreases words.len(),
{
    if words.len() > 0 && words.last() != i {
        lemma_last_place_bounded(words.drop_last(), i);
    }
}

} // verus!
