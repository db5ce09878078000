//! The text side of the alignment: the text cut into runs of whitespace and
//! of other characters, the line and paragraph of each run, which runs are
//! words, and the normalised form in which words are compared.
use vstd::prelude::*;

verus! {

/// The characters with the Unicode `White_Space` property.
pub open spec fn is_white_space(c: char) -> bool {
    let v = c as u32;
    ||| 9 <= v <= 13
    ||| v == 32
    ||| v == 0x85
    ||| v == 0xa0
    ||| v == 0x1680
    ||| 0x2000 <= v <= 0x200a
    ||| v == 0x2028
    ||| v == 0x2029
    ||| v == 0x202f
    ||| v == 0x205f
    ||| v == 0x3000
}

/// Whether a character is whitespace in the sense of Unicode.
pub fn white_space(c: char) -> (b: bool)
    ensures
        b == is_white_space(c),
{
    let v = c as u32;
    (9 <= v && v <= 13) || v == 32 || v == 0x85 || v == 0xa0 || v == 0x1680 || (0x2000 <= v && v
        <= 0x200a) || v == 0x2028 || v == 0x2029 || v == 0x202f || v == 0x205f || v == 0x3000
}

/// Appends a character to a string, with `String::push`.
#[verifier::external_body]
fn push_char(s: &mut String, c: char)
    ensures
        final(s)@ == old(s)@.push(c),
{
    s.push(c);
}

/// The pieces of `cs` one after another.
pub open spec fn concat_all(cs: Seq<Seq<char>>) -> Seq<char>
    decreases cs.len(),
{
    if cs.len() == 0 {
        Seq::empty()
    } else {
        concat_all(cs.drop_last()) + cs.last()
    }
}

/// A non-empty run of characters that are all whitespace or all not.
pub open spec fn is_run(s: Seq<char>) -> bool {
    s.len() > 0 && forall|i: int| 0 <= i < s.len() ==> is_white_space(#[trigger] s[i]) == is_white_space(s[0])
}

/// `cs` cuts `text` into maximal runs: whitespace and other characters
/// alternate from one piece to the next.
pub open spec fn is_chunking(text: Seq<char>, cs: Seq<Seq<char>>) -> bool {
    &&& concat_all(cs) == text
    &&& forall|i: int| 0 <= i < cs.len() ==> is_run(#[trigger] cs[i])
    &&& forall|i: int| 0 <= i < cs.len() - 1 ==> is_white_space(#[trigger] cs[i][0]) != is_white_space(cs[i + 1][0])
}

pub open spec fn string_views(v: Seq<String>) -> Seq<Seq<char>> {
    v.map_values(|s: String| s@)
}

pub open spec fn pending(cs: Seq<Seq<char>>, cur: Seq<char>) -> Seq<Seq<char>> {
    if cur.len() > 0 { cs.push(cur) } else { cs }
}

/// Cuts a text into its runs of whitespace and runs of other characters.
pub fn split_chunks(text: &str) -> (r: Vec<String>)
    ensures
        is_chunking(text@, string_views(r@)),
{
    let mut chunks: Vec<String> = Vec::new();
    let mut cur = String::new();
    let mut cur_white = false;
    let mut started = false;
    proof {
        assert(string_views(chunks@) =~= Seq::<Seq<char>>::empty());
        assert(text@.take(0) =~= Seq::<char>::empty());
    }
    for c in it: text.chars()
        invariant
            it.seq() == text@,
            started <==> cur@.len() > 0,
            !started ==> chunks.len() == 0,
            started ==> cur_white == is_white_space(cur@[0]),
            is_chunking(it.seq().take(it.index() as int), pending(string_views(chunks@), cur@)),
    {
        let ghost prefix = it.seq().take(it.index() as int);
        let ghost before = pending(string_views(chunks@), cur@);
        let w = white_space(c);
        proof {
            assert(it.seq().take(it.index() + 1) =~= prefix.push(c));
        }
        if started && w != cur_white {
            let ghost old_cs = string_views(chunks@);
            let ghost old_cur = cur@;
            chunks.push(cur);
            cur = String::new();
            push_char(&mut cur, c);
            cur_white = w;
            proof {
                let cs = pending(string_views(chunks@), cur@);
                assert(string_views(chunks@) =~= old_cs.push(old_cur));
                assert(cs =~= before.push(seq![c]));
                assert(cs.drop_last() =~= before);
                assert(concat_all(cs) =~= prefix.push(c));
                assert forall|i: int| 0 <= i < cs.len() implies is_run(#[trigger] cs[i]) by {
                    if i < cs.len() - 1 {
                        assert(cs[i] == before[i]);
                    }
                }
                assert forall|i: int| 0 <= i < cs.len() - 1 implies is_white_space(#[trigger] cs[i][0]) != is_white_space(cs[i + 1][0]) by {
                    if i < cs.len() - 2 {
                        assert(cs[i] == before[i] && cs[i + 1] == before[i + 1]);
                    } else {
                        assert(cs[i] == old_cur);
                    }
                }
            }
        } else {
            let ghost old_cur = cur@;
            let ghost old_cs = string_views(chunks@);
            if !started {
                cur_white = w;
            }
            push_char(&mut cur, c);
            started = true;
            proof {
                let cs = pending(string_views(chunks@), cur@);
                assert(cs =~= old_cs.push(old_cur.push(c)));
                if old_cur.len() > 0 {
                    assert(before =~= old_cs.push(old_cur));
                    assert(before.drop_last() =~= old_cs);
                    assert(cs.drop_last() =~= old_cs);
                    assert(concat_all(before) =~= concat_all(old_cs) + old_cur);
                    assert(concat_all(cs) =~= prefix.push(c));
                    assert forall|i: int| 0 <= i < cs.len() implies is_run(#[trigger] cs[i]) by {
                        if i < cs.len() - 1 {
                            assert(cs[i] == before[i]);
                        } else {
                            assert(is_run(before[i]));
                            assert(cs[i] =~= old_cur.push(c));
                        }
                    }
                    assert forall|i: int| 0 <= i < cs.len() - 1 implies is_white_space(#[trigger] cs[i][0]) != is_white_space(cs[i + 1][0]) by {
                        assert(cs[i] == before[i]);
                        assert(cs[i + 1][0] == before[i + 1][0]);
                    }
                } else {
                    assert(old_cs =~= Seq::<Seq<char>>::empty());
                    assert(old_cur.push(c) =~= seq![c]);
                    assert(cs =~= seq![seq![c]]);
                    assert(concat_all(cs.drop_last()) =~= Seq::<char>::empty());
                    assert(prefix.len() == 0);
                    assert(concat_all(cs) =~= prefix.push(c));
                }
            }
        }
    }
    proof {
        assert(text@.take(text@.len() as int) =~= text@);
    }
    let ghost final_cs = pending(string_views(chunks@), cur@);
    if started {
        chunks.push(cur);
    }
    assert(string_views(chunks@) =~= final_cs);
    chunks
}

proof fn lemma_concat_all_last(cs: Seq<Seq<char>>)
    requires
        cs.len() > 0,
    ensures
        concat_all(cs) == concat_all(cs.drop_last()) + cs.last(),
        concat_all(cs).len() >= cs.last().len(),
{
}

proof fn lemma_chunking_prefix(t: Seq<char>, a: Seq<Seq<char>>)
    requires
        is_chunking(t, a),
        a.len() > 0,
    ensures
        is_chunking(t.subrange(0, t.len() - a.last().len()), a.drop_last()),
        t.subrange(t.len() - a.last().len(), t.len() as int) == a.last(),
{
    let d = a.drop_last();
    lemma_concat_all_last(a);
    let pa = concat_all(d);
    assert(t.subrange(0, t.len() - a.last().len()) =~= pa);
    assert(t.subrange(t.len() - a.last().len(), t.len() as int) =~= a.last());
    assert forall|i: int| 0 <= i < d.len() implies is_run(#[trigger] d[i]) by {
        assert(d[i] == a[i]);
    }
    assert forall|i: int| 0 <= i < d.len() - 1 implies is_white_space(#[trigger] d[i][0]) != is_white_space(d[i + 1][0]) by {
        assert(d[i] == a[i] && d[i + 1] == a[i + 1]);
    }
}

proof fn lemma_chunking_nonempty(t: Seq<char>, a: Seq<Seq<char>>)
    requires
        is_chunking(t, a),
    ensures
        a.len() == 0 <==> t.len() == 0,
{
    if a.len() > 0 {
        lemma_concat_all_last(a);
        assert(is_run(a[a.len() - 1]));
    }
}

/// The last run of one cutting is not shorter than that of another.
proof fn lemma_chunking_last_not_shorter(t: Seq<char>, a: Seq<Seq<char>>, b: Seq<Seq<char>>)
    requires
        is_chunking(t, a),
        is_chunking(t, b),
        a.len() > 0,
        b.len() > 0,
    ensures
        a.last().len() >= b.last().len(),
{
    let n = t.len() as int;
    let la = a.last().len() as int;
    let lb = b.last().len() as int;
    lemma_concat_all_last(a);
    lemma_concat_all_last(b);
    if la < lb {
        assert(is_run(a[a.len() - 1]));
        assert(is_run(b[b.len() - 1]));
        let pa = concat_all(a.drop_last());
        assert(pa.len() == n - la);
        assert(pa.len() > 0);
        let d = a.drop_last();
        assert(d.len() > 0) by {
            if d.len() == 0 {
                assert(concat_all(d) =~= Seq::<char>::empty());
            }
        }
        let q = d.last();
        lemma_concat_all_last(d);
        assert(is_run(a[a.len() - 2]));
        assert(q == a[a.len() - 2]);
        let p = n - la - 1;
        assert(t[p] == pa[pa.len() - 1]);
        assert(pa[pa.len() - 1] == q[q.len() - 1]);
        assert(is_white_space(q[q.len() - 1]) == is_white_space(q[0]));
        assert(is_white_space(a[a.len() - 2][0]) != is_white_space(a[a.len() - 1][0]));
        assert(t[n - 1] == a.last()[la - 1]);
        assert(t[n - 1] == b.last()[lb - 1]);
        assert(t[p] == b.last()[p - (n - lb)]);
        assert(is_white_space(b.last()[p - (n - lb)]) == is_white_space(b.last()[0]));
        assert(is_white_space(b.last()[lb - 1]) == is_white_space(b.last()[0]));
        assert(is_white_space(a.last()[la - 1]) == is_white_space(a.last()[0]));
    }
}

/// A text has one way only of being cut into its maximal runs.
pub proof fn lemma_chunking_unique(t: Seq<char>, a: Seq<Seq<char>>, b: Seq<Seq<char>>)
    requires
        is_chunking(t, a),
        is_chunking(t, b),
    ensures
        a == b,
    decreases a.len(),
{
    lemma_chunking_nonempty(t, a);
    lemma_chunking_nonempty(t, b);
    if a.len() == 0 {
        assert(a =~= b);
    } else {
        lemma_chunking_last_not_shorter(t, a, b);
        lemma_chunking_last_not_shorter(t, b, a);
        lemma_chunking_prefix(t, a);
        lemma_chunking_prefix(t, b);
        lemma_chunking_unique(t.subrange(0, t.len() - a.last().len()), a.drop_last(), b.drop_last());
        assert(a =~= a.drop_last().push(a.last()));
        assert(b =~= b.drop_last().push(b.last()));
    }
}

/// The number of line breaks in a piece of text.
pub open spec fn newlines(s: Seq<char>) -> nat
    decreases s.len(),
{
    if s.len() == 0 {
        0
    } else {
        newlines(s.drop_last()) + (if s.last() == '\n' { 1nat } else { 0nat })
    }
}

/// Counts the line breaks in a piece of text.
pub fn count_newlines(s: &str) -> (n: usize)
    requires
        newlines(s@) <= usize::MAX,
    ensures
        n == newlines(s@),
{
    let mut n: usize = 0;
    for c in it: s.chars()
        invariant
            it.seq() == s@,
            n == newlines(it.seq().take(it.index() as int)),
            newlines(s@) <= usize::MAX,
    {
        proof {
            assert(it.seq().take(it.index() + 1).drop_last() =~= it.seq().take(it.index() as int));
            lemma_newlines_prefix(s@, it.index() + 1);
        }
        if c == '\n' {
            n = n + 1;
        }
    }
    proof {
        assert(s@.take(s@.len() as int) =~= s@);
    }
    n
}

proof fn lemma_newlines_prefix(s: Seq<char>, k: int)
    requires
        0 <= k <= s.len(),
    ensures
        newlines(s.take(k)) <= newlines(s),
    decreases s.len() - k,
{
    if k < s.len() {
        lemma_newlines_prefix(s, k + 1);
        assert(s.take(k + 1).drop_last() =~= s.take(k));
    } else {
        assert(s.take(k) =~= s);
    }
}

/// All line breaks in the pieces of `cs`.
pub open spec fn total_newlines(cs: Seq<Seq<char>>) -> nat
    decreases cs.len(),
{
    if cs.len() == 0 {
        0
    } else {
        total_newlines(cs.drop_last()) + newlines(cs.last())
    }
}

/// The pieces of `cs` that hold more than one line break: each starts a
/// new paragraph.
pub open spec fn paragraph_breaks(cs: Seq<Seq<char>>) -> nat
    decreases cs.len(),
{
    if cs.len() == 0 {
        0
    } else {
        paragraph_breaks(cs.drop_last()) + (if newlines(cs.last()) > 1 { 1nat } else { 0nat })
    }
}

proof fn lemma_totals_prefix(cs: Seq<Seq<char>>, k: int)
    requires
        0 <= k <= cs.len(),
    ensures
        total_newlines(cs.take(k)) <= total_newlines(cs),
        paragraph_breaks(cs.take(k)) <= total_newlines(cs.take(k)),
    decreases cs.len() - k,
{
    lemma_breaks_bounded(cs.take(k));
    if k < cs.len() {
        lemma_totals_prefix(cs, k + 1);
        assert(cs.take(k + 1).drop_last() =~= cs.take(k));
    } else {
        assert(cs.take(k) =~= cs);
        lemma_breaks_bounded(cs);
    }
}

proof fn lemma_breaks_bounded(cs: Seq<Seq<char>>)
    ensures
        paragraph_breaks(cs) <= total_newlines(cs),
    decreases cs.len(),
{
    if cs.len() > 0 {
        lemma_breaks_bounded(cs.drop_last());
    }
}

/// The line and the paragraph on which each piece of text ends, counting
/// from one: the line advances by every line break, the paragraph by every
/// piece with more than one line break.
pub fn line_and_paragraph_numbers(chunks: &[String]) -> (r: Vec<(usize, usize)>)
    requires
        total_newlines(string_views(chunks@)) < usize::MAX,
    ensures
        r.len() == chunks.len(),
        forall|i: int|
            0 <= i < r.len() ==> #[trigger] r[i] == (
                (1 + total_newlines(string_views(chunks@).take(i + 1))) as usize,
                (1 + paragraph_breaks(string_views(chunks@).take(i + 1))) as usize,
            ),
        // the first piece starts on line one of paragraph one
        r.len() > 0 ==> r[0].0 == 1 + newlines(chunks@[0]@) && r[0].1 == 1 + (if newlines(chunks@[0]@) > 1 {
            1int
        } else {
            0int
        }),
        // each piece moves the line on by its line breaks, and the paragraph
        // on by one exactly when it holds more than one line break
        forall|i: int|
            0 < i < r.len() ==> (#[trigger] r[i]).0 == r[i - 1].0 + newlines(chunks@[i]@) && r[i].1 == r[i - 1].1 + (
            if newlines(chunks@[i]@) > 1 {
                1int
            } else {
                0int
            }),
        // the paragraph of piece i is one more than the number of pieces up
        // to it that hold more than one line break
        forall|i: int|
            0 <= i < r.len() ==> (#[trigger] r[i]).1 == 1 + string_views(chunks@).take(i + 1).filter(
                |c: Seq<char>| newlines(c) > 1,
            ).len(),
{
    let ghost cs = string_views(chunks@);
    let mut line: usize = 1;
    let mut paragraph: usize = 1;
    let mut r: Vec<(usize, usize)> = Vec::new();
    let mut i: usize = 0;
    while i < chunks.len()
        invariant
            cs == string_views(chunks@),
            total_newlines(cs) < usize::MAX,
            i <= chunks.len(),
            r.len() == i,
            line == 1 + total_newlines(cs.take(i as int)),
            paragraph == 1 + paragraph_breaks(cs.take(i as int)),
            forall|j: int|
                0 <= j < i ==> #[trigger] r[j] == (
                    (1 + total_newlines(cs.take(j + 1))) as usize,
                    (1 + paragraph_breaks(cs.take(j + 1))) as usize,
                ),
            i > 0 ==> r[0].0 == 1 + newlines(chunks@[0]@) && r[0].1 == 1 + (if newlines(chunks@[0]@) > 1 {
                1int
            } else {
                0int
            }),
            i > 0 ==> r[i - 1] == (line, paragraph),
            forall|j: int| 0 <= j < i ==> (#[trigger] r[j]).1 == 1 + paragraph_breaks(cs.take(j + 1)),
            forall|j: int|
                0 < j < i ==> (#[trigger] r[j]).0 == r[j - 1].0 + newlines(chunks@[j]@) && r[j].1 == r[j - 1].1 + (
                if newlines(chunks@[j]@) > 1 {
                    1int
                } else {
                    0int
                }),
        decreases chunks.len() - i,
    {
        proof {
            assert(cs.take(i + 1).drop_last() =~= cs.take(i as int));
            assert(cs.take(i + 1).last() == chunks@[i as int]@);
            lemma_totals_prefix(cs, i + 1);
            lemma_newlines_bounded_by_total(cs.take(i + 1));
        }
        let k = count_newlines(chunks[i].as_str());
        line = line + k;
        if k > 1 {
            paragraph = paragraph + 1;
        }
        r.push((line, paragraph));
        i = i + 1;
    }
    proof {
        lemma_prefix_paragraph_breaks(cs);
        assert forall|i: int| 0 <= i < r.len() implies (#[trigger] r[i]).1 == 1 + cs.take(i + 1).filter(
            |c: Seq<char>| newlines(c) > 1,
        ).len() by {
            assert(paragraph_breaks(cs.take(i + 1)) == cs.take(i + 1).filter(|c: Seq<char>| newlines(c) > 1).len());
        }
    }
    r
}

proof fn lemma_prefix_paragraph_breaks(cs: Seq<Seq<char>>)
    ensures
        forall|i: int|
            0 <= i < cs.len() ==> paragraph_breaks(#[trigger] cs.take(i + 1)) == cs.take(i + 1).filter(
                |c: Seq<char>| newlines(c) > 1,
            ).len(),
{
    assert forall|i: int| 0 <= i < cs.len() implies paragraph_breaks(#[trigger] cs.take(i + 1)) == cs.take(
        i + 1,
    ).filter(|c: Seq<char>| newlines(c) > 1).len() by {
        law_paragraph_breaks(cs.take(i + 1));
    }
}

proof fn lemma_newlines_bounded_by_total(cs: Seq<Seq<char>>)
    requires
        cs.len() > 0,
    ensures
        newlines(cs.last()) <= total_newlines(cs),
{
}


/// Whether a character is a letter or a digit of any script, as
/// `char::is_alphanumeric` decides from the Unicode tables.
pub uninterp spec fn alphanumeric(c: char) -> bool;

/// An ASCII letter or digit.
pub open spec fn is_ascii_alphanumeric(c: char) -> bool {
    ('0' <= c <= '9') || ('a' <= c <= 'z') || ('A' <= c <= 'Z')
}

/// Every character of the text is ASCII.
pub open spec fn is_ascii_text(s: Seq<char>) -> bool {
    forall|i: int| 0 <= i < s.len() ==> (#[trigger] s[i] as u32) < 128
}

/// `char::is_alphanumeric`: the character is alphabetic or numeric in the
/// sense of Unicode. On ASCII these are the letters and digits; the tables
/// behind the other characters are not restated here, the result is only
/// named.
#[verifier::external_body]
fn is_alphanumeric(c: char) -> (b: bool)
    ensures
        b == alphanumeric(c),
        (c as u32) < 128 ==> (b <==> is_ascii_alphanumeric(c)),
{
    c.is_alphanumeric()
}

/// Some character of the piece is a letter or a digit.
pub open spec fn has_alphanumeric(s: Seq<char>) -> bool {
    exists|i: int| 0 <= i < s.len() && alphanumeric(#[trigger] s[i])
}

/// Whether some character of the text is a letter or a digit.
pub fn contains_alphanumeric(s: &str) -> (b: bool)
    ensures
        b == has_alphanumeric(s@),
        b <==> exists|i: int| 0 <= i < s@.len() && alphanumeric(#[trigger] s@[i]),
{
    for c in it: s.chars()
        invariant
            it.seq() == s@,
            forall|j: int| 0 <= j < it.index() ==> !alphanumeric(#[trigger] s@[j]),
    {
        if is_alphanumeric(c) {
            return true;
        }
    }
    false
}

/// The positions of the pieces that hold a letter or a digit, in order.
pub open spec fn alphanumeric_positions(cs: Seq<Seq<char>>) -> Seq<int>
    decreases cs.len(),
{
    if cs.len() == 0 {
        Seq::empty()
    } else if has_alphanumeric(cs.last()) {
        alphanumeric_positions(cs.drop_last()).push(cs.len() - 1)
    } else {
        alphanumeric_positions(cs.drop_last())
    }
}

/// Finds which of the pieces are words: those holding a letter or a digit.
pub fn word_positions(items: &[String]) -> (r: Vec<usize>)
    ensures
        r@.map_values(|i: usize| i as int) == alphanumeric_positions(string_views(items@)),
        forall|k: int|
            0 <= k < r.len() ==> #[trigger] r[k] < items.len() && exists|j: int|
                0 <= j < items@[r[k] as int]@.len() && alphanumeric(#[trigger] items@[r[k] as int]@[j]),
        forall|i: int|
            #![trigger items@[i]]
            0 <= i < items.len() && (exists|j: int| 0 <= j < items@[i]@.len() && alphanumeric(#[trigger] items@[i]@[j]))
                ==> r@.contains(i as usize),
        forall|a: int, b: int| 0 <= a < b < r.len() ==> #[trigger] r[a] < #[trigger] r[b],
{
    let ghost cs = string_views(items@);
    let mut r: Vec<usize> = Vec::new();
    let mut i: usize = 0;
    while i < items.len()
        invariant
            cs == string_views(items@),
            i <= items.len(),
            r@.map_values(|k: usize| k as int) == alphanumeric_positions(cs.take(i as int)),
        decreases items.len() - i,
    {
        proof {
            assert(cs.take(i + 1).drop_last() =~= cs.take(i as int));
            assert(cs.take(i + 1).last() == items@[i as int]@);
        }
        let ghost before = r@;
        if contains_alphanumeric(items[i].as_str()) {
            r.push(i);
            assert(r@.map_values(|k: usize| k as int) =~= before.map_values(|k: usize| k as int).push(i as int));
        }
        i = i + 1;
    }
    assert(cs.take(items.len() as int) =~= cs);
    proof {
        law_alphanumeric_positions(cs);
        let p = alphanumeric_positions(cs);
        assert forall|k: int| 0 <= k < r.len() implies #[trigger] r[k] as int == p[k] by {
            assert(r@.map_values(|i: usize| i as int)[k] == r@[k] as int);
        }
        assert forall|k: int| 0 <= k < r.len() implies #[trigger] r[k] < items.len() && exists|j: int|
            0 <= j < items@[r[k] as int]@.len() && alphanumeric(#[trigger] items@[r[k] as int]@[j]) by {
            assert(r[k] as int == p[k]);
            assert(cs[p[k]] == items@[r[k] as int]@);
        }
        assert forall|i: int|
            #![trigger items@[i]]
            0 <= i < items.len() && (exists|j: int| 0 <= j < items@[i]@.len() && alphanumeric(#[trigger] items@[i]@[j]))
                implies r@.contains(i as usize) by {
            assert(cs[i] == items@[i]@);
            assert(p.contains(i));
            let k = choose|k: int| 0 <= k < p.len() && p[k] == i;
            assert(r[k] as int == p[k]);
        }
        assert forall|a: int, b: int| 0 <= a < b < r.len() implies #[trigger] r[a] < #[trigger] r[b] by {
            assert(r[a] as int == p[a] && r[b] as int == p[b]);
        }
    }
    r
}

/// The pieces counted as words are exactly those with a letter or a digit
/// at some place, whatever its place: every listed position holds one,
/// every piece holding one is listed, and the positions increase.
pub proof fn law_alphanumeric_positions(cs: Seq<Seq<char>>)
    ensures
        forall|k: int|
            0 <= k < alphanumeric_positions(cs).len() ==> 0 <= #[trigger] alphanumeric_positions(cs)[k]
                < cs.len() && exists|j: int|
                0 <= j < cs[alphanumeric_positions(cs)[k]].len() && alphanumeric(
                    #[trigger] cs[alphanumeric_positions(cs)[k]][j],
                ),
        forall|i: int|
            0 <= i < cs.len() && (exists|j: int| 0 <= j < cs[i].len() && alphanumeric(#[trigger] cs[i][j]))
                ==> alphanumeric_positions(cs).contains(i),
        forall|a: int, b: int|
            0 <= a < b < alphanumeric_positions(cs).len() ==> #[trigger] alphanumeric_positions(cs)[a]
                < #[trigger] alphanumeric_positions(cs)[b],
    decreases cs.len(),
{
    if cs.len() > 0 {
        let d = cs.drop_last();
        let n = cs.len() - 1;
        law_alphanumeric_positions(d);
        let p = alphanumeric_positions(cs);
        let q = alphanumeric_positions(d);
        assert forall|k: int| 0 <= k < p.len() implies 0 <= #[trigger] p[k] < cs.len() && exists|j: int|
            0 <= j < cs[p[k]].len() && alphanumeric(#[trigger] cs[p[k]][j]) by {
            if k < q.len() {
                assert(p[k] == q[k]);
                assert(cs[q[k]] == d[q[k]]);
            } else {
                assert(p[k] == n);
                assert(has_alphanumeric(cs.last()));
            }
        }
        assert forall|i: int|
            0 <= i < cs.len() && (exists|j: int| 0 <= j < cs[i].len() && alphanumeric(#[trigger] cs[i][j]))
                implies p.contains(i) by {
            if i < n {
                assert(cs[i] == d[i]);
                assert(q.contains(i));
                let k = choose|k: int| 0 <= k < q.len() && q[k] == i;
                assert(p[k] == q[k]);
            } else {
                let j = choose|j: int| 0 <= j < cs[i].len() && alphanumeric(#[trigger] cs[i][j]);
                assert(has_alphanumeric(cs.last()));
                assert(p[p.len() - 1] == i);
            }
        }
        assert forall|a: int, b: int| 0 <= a < b < p.len() implies #[trigger] p[a] < #[trigger] p[b] by {
            if b < q.len() {
                assert(p[a] == q[a] && p[b] == q[b]);
            } else {
                assert(p[a] == q[a]);
            }
        }
    }
}

/// The pieces with more than one line break, counted directly.
pub proof fn law_paragraph_breaks(cs: Seq<Seq<char>>)
    ensures
        paragraph_breaks(cs) == cs.filter(|c: Seq<char>| newlines(c) > 1).len(),
    decreases cs.len(),
{
    reveal(Seq::filter);
    if cs.len() > 0 {
        law_paragraph_breaks(cs.drop_last());
    }
}

/// The line breaks of a text are its newline characters, counted directly.
pub proof fn law_newlines(s: Seq<char>)
    ensures
        newlines(s) == s.filter(|c: char| c == '\n').len(),
    decreases s.len(),
{
    reveal(Seq::filter);
    if s.len() > 0 {
        law_newlines(s.drop_last());
    }
}

/// What `deunicode::deunicode` transliterates a text into.
pub uninterp spec fn transliteration(s: Seq<char>) -> Seq<char>;

/// `deunicode::deunicode`: the closest ASCII rendering of a text. The
/// result is ASCII, and a text whose characters all lie below `0x7f` comes
/// back unchanged (the crate returns such a text as it is). Other
/// characters, `0x7f` among them, are rendered from the crate's tables,
/// partly depending on their neighbours; that rendering is only named.
#[verifier::external_body]
fn transliterate(s: &str) -> (r: String)
    ensures
        r@ == transliteration(s@),
        forall|i: int| 0 <= i < r@.len() ==> (#[trigger] r@[i] as u32) <= 127,
        (forall|i: int| 0 <= i < s@.len() ==> (#[trigger] s@[i] as u32) < 0x7f) ==> r@ == s@,
{
    deunicode::deunicode(s)
}

/// What `str::to_lowercase` turns a text into.
pub uninterp spec fn lowercase(s: Seq<char>) -> Seq<char>;

/// The lowercase of an ASCII character: `A` to `Z` become `a` to `z`.
pub open spec fn ascii_lower(c: char) -> char {
    if 'A' <= c <= 'Z' {
        ((c as u32) + 32) as char
    } else {
        c
    }
}

/// `str::to_lowercase`: the lowercase equivalent of the text under the
/// Unicode `Lowercase` mapping. On an ASCII text it lowers `A` to `Z` and
/// keeps every other character; the mapping beyond ASCII is only named.
#[verifier::external_body]
fn to_lowercase(s: &str) -> (r: String)
    ensures
        r@ == lowercase(s@),
        is_ascii_text(s@) ==> r@ == s@.map_values(|c: char| ascii_lower(c)),
{
    s.to_lowercase()
}

/// The letters and digits of a text, in order.
pub open spec fn alphanumeric_only(s: Seq<char>) -> Seq<char>
    decreases s.len(),
{
    if s.len() == 0 {
        Seq::empty()
    } else if alphanumeric(s.last()) {
        alphanumeric_only(s.drop_last()).push(s.last())
    } else {
        alphanumeric_only(s.drop_last())
    }
}

/// The ASCII letters and digits of a text, in order.
pub open spec fn ascii_alphanumeric_only(s: Seq<char>) -> Seq<char>
    decreases s.len(),
{
    if s.len() == 0 {
        Seq::empty()
    } else if is_ascii_alphanumeric(s.last()) {
        ascii_alphanumeric_only(s.drop_last()).push(s.last())
    } else {
        ascii_alphanumeric_only(s.drop_last())
    }
}

proof fn lemma_ascii_alphanumeric_only(s: Seq<char>)
    ensures
        forall|i: int| 0 <= i < ascii_alphanumeric_only(s).len() ==> is_ascii_alphanumeric(
            #[trigger] ascii_alphanumeric_only(s)[i],
        ),
    decreases s.len(),
{
    if s.len() > 0 {
        lemma_ascii_alphanumeric_only(s.drop_last());
        let d = ascii_alphanumeric_only(s.drop_last());
        assert forall|i: int| 0 <= i < ascii_alphanumeric_only(s).len() implies is_ascii_alphanumeric(
            #[trigger] ascii_alphanumeric_only(s)[i],
        ) by {
            if i < d.len() {
                assert(ascii_alphanumeric_only(s)[i] == d[i]);
            }
        }
    }
}

/// The form in which words are compared: letters and digits only,
/// rendered in ASCII, in lowercase.
pub open spec fn processed_word(s: Seq<char>) -> Seq<char> {
    lowercase(transliteration(alphanumeric_only(s)))
}

/// Brings a word into the form in which words are compared.
/// An ASCII word keeps its ASCII letters and digits, lowered.
pub fn process_word(input: &str) -> (r: String)
    ensures
        r@ == processed_word(input@),
        is_ascii_text(input@) ==> r@ == ascii_alphanumeric_only(input@).map_values(|c: char| ascii_lower(c)),
{
    let mut clean = String::new();
    for c in it: input.chars()
        invariant
            it.seq() == input@,
            clean@ == alphanumeric_only(it.seq().take(it.index() as int)),
            is_ascii_text(it.seq().take(it.index() as int)) ==> clean@ == ascii_alphanumeric_only(
                it.seq().take(it.index() as int),
            ),
    {
        proof {
            let prefix = input@.take(it.index() as int);
            let next = input@.take(it.index() + 1);
            assert(next.drop_last() =~= prefix);
            if is_ascii_text(next) {
                assert forall|i: int| 0 <= i < prefix.len() implies (#[trigger] prefix[i] as u32) < 128 by {
                    assert(prefix[i] == next[i]);
                }
                assert((next[it.index() as int] as u32) < 128);
            }
        }
        if is_alphanumeric(c) {
            push_char(&mut clean, c);
        }
    }
    proof {
        assert(input@.take(input@.len() as int) =~= input@);
        lemma_ascii_alphanumeric_only(input@);
    }
    let ascii = transliterate(clean.as_str());
    let r = to_lowercase(ascii.as_str());
    proof {
        if is_ascii_text(input@) {
            assert(ascii@ == clean@);
        }
    }
    r
}

} // verus!
