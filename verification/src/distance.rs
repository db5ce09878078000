//! How far apart two words are: the Levenshtein distance between their
//! bytes, set against the length of the longer word.
use vstd::prelude::*;
use vstd::string::StringSliceAdditionalSpecFns;

verus! {

/// The fewest single-byte insertions, deletions and substitutions that turn
/// `a` into `b`.
pub open spec fn edit_distance(a: Seq<u8>, b: Seq<u8>) -> nat
    decreases a.len() + b.len(),
{
    if a.len() == 0 {
        b.len()
    } else if b.len() == 0 {
        a.len()
    } else {
        let del = edit_distance(a.drop_last(), b) + 1;
        let ins = edit_distance(a, b.drop_last()) + 1;
        let sub = edit_distance(a.drop_last(), b.drop_last()) + (if a.last() == b.last() { 0nat } else { 1nat });
        if del <= ins && del <= sub {
            del
        } else if ins <= sub {
            ins
        } else {
            sub
        }
    }
}

/// The Levenshtein distance of two byte strings, computed by
/// `triple_accel::levenshtein`, which counts the insertions, deletions and
/// substitutions of single bytes. Its length arithmetic is in `u32`, which
/// the bound on the lengths keeps from wrapping.
#[verifier::external_body]
fn levenshtein_bytes(a: &[u8], b: &[u8]) -> (d: u32)
    requires
        a.len() <= 0x7fff_ffff,
        b.len() <= 0x7fff_ffff,
    ensures
        d == edit_distance(a@, b@),
{
    triple_accel::levenshtein(a, b)
}

/// The distance between two words: the edits between their bytes, and the
/// byte length of the longer word. The cost of aligning the two words is
/// `edits / longest`, or zero when both are empty.
#[derive(Clone, Copy, PartialEq, Eq, Debug)]
pub struct WordDistance {
    pub edits: u32,
    pub longest: usize,
}

/// The distance between two words given as bytes.
pub open spec fn spec_word_distance(a: Seq<u8>, b: Seq<u8>) -> (nat, int) {
    (edit_distance(a, b), vstd::math::max(a.len() as int, b.len() as int))
}

/// Measures how far apart two words are.
pub fn word_distance(l: &str, r: &str) -> (d: WordDistance)
    requires
        l.spec_bytes().len() <= 0x7fff_ffff,
        r.spec_bytes().len() <= 0x7fff_ffff,
    ensures
        d.edits == edit_distance(l.spec_bytes(), r.spec_bytes()),
        d.longest == vstd::math::max(l.spec_bytes().len() as int, r.spec_bytes().len() as int),
        (d.edits as nat, d.longest as int) == spec_word_distance(l.spec_bytes(), r.spec_bytes()),
        d.edits <= d.longest,
{
    let a = l.as_bytes();
    let b = r.as_bytes();
    let edits = levenshtein_bytes(a, b);
    let longest = if a.len() >= b.len() { a.len() } else { b.len() };
    proof {
        lemma_edit_distance_bounds(a@, b@);
    }
    WordDistance { edits, longest }
}

/// No more edits are needed than the longer string has bytes, and no fewer
/// than the lengths differ by.
pub proof fn lemma_edit_distance_bounds(a: Seq<u8>, b: Seq<u8>)
    ensures
        edit_distance(a, b) <= vstd::math::max(a.len() as int, b.len() as int),
        edit_distance(a, b) >= a.len() - b.len(),
        edit_distance(a, b) >= b.len() - a.len(),
    decreases a.len() + b.len(),
{
    if a.len() > 0 && b.len() > 0 {
        lemma_edit_distance_bounds(a.drop_last(), b);
        lemma_edit_distance_bounds(a, b.drop_last());
        lemma_edit_distance_bounds(a.drop_last(), b.drop_last());
    }
}

/// A word is at no distance from itself.
pub proof fn lemma_edit_distance_same(a: Seq<u8>)
    ensures
        edit_distance(a, a) == 0,
    decreases a.len(),
{
    if a.len() > 0 {
        lemma_edit_distance_same(a.drop_last());
    }
}


/// Two words are as far apart either way round, so swapping the two lists
/// of words transposes the matrix of their distances.
pub proof fn lemma_word_distance_symmetric(a: Seq<u8>, b: Seq<u8>)
    ensures
        spec_word_distance(a, b) == spec_word_distance(b, a),
{
    lemma_edit_distance_symmetric(a, b);
}

/// Turning `a` into `b` takes as many edits as turning `b` into `a`.
pub proof fn lemma_edit_distance_symmetric(a: Seq<u8>, b: Seq<u8>)
    ensures
        edit_distance(a, b) == edit_distance(b, a),
    decreases a.len() + b.len(),
{
    if a.len() > 0 && b.len() > 0 {
        lemma_edit_distance_symmetric(a.drop_last(), b);
        lemma_edit_distance_symmetric(a, b.drop_last());
        lemma_edit_distance_symmetric(a.drop_last(), b.drop_last());
    }
}

} // verus!
