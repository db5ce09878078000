//! The names of the files in which the path found in each window is kept:
//! `path-<window>-<left offset>-<right offset>.json`, possibly after some
//! prefix.
use vstd::prelude::*;

verus! {

/// The characters of the Unicode general category `Nd` (decimal digits in
/// any script), which the file-name pattern's `\d` admits.
pub open spec fn is_decimal_digit(c: char) -> bool {
    let v = c as u32;
    ||| 0x30 <= v <= 0x39
    ||| 0x660 <= v <= 0x669
    ||| 0x6f0 <= v <= 0x6f9
    ||| 0x7c0 <= v <= 0x7c9
    ||| 0x966 <= v <= 0x96f
    ||| 0x9e6 <= v <= 0x9ef
    ||| 0xa66 <= v <= 0xa6f
    ||| 0xae6 <= v <= 0xaef
    ||| 0xb66 <= v <= 0xb6f
    ||| 0xbe6 <= v <= 0xbef
    ||| 0xc66 <= v <= 0xc6f
    ||| 0xce6 <= v <= 0xcef
    ||| 0xd66 <= v <= 0xd6f
    ||| 0xde6 <= v <= 0xdef
    ||| 0xe50 <= v <= 0xe59
    ||| 0xed0 <= v <= 0xed9
    ||| 0xf20 <= v <= 0xf29
    ||| 0x1040 <= v <= 0x1049
    ||| 0x1090 <= v <= 0x1099
    ||| 0x17e0 <= v <= 0x17e9
    ||| 0x1810 <= v <= 0x1819
    ||| 0x1946 <= v <= 0x194f
    ||| 0x19d0 <= v <= 0x19d9
    ||| 0x1a80 <= v <= 0x1a89
    ||| 0x1a90 <= v <= 0x1a99
    ||| 0x1b50 <= v <= 0x1b59
    ||| 0x1bb0 <= v <= 0x1bb9
    ||| 0x1c40 <= v <= 0x1c49
    ||| 0x1c50 <= v <= 0x1c59
    ||| 0xa620 <= v <= 0xa629
    ||| 0xa8d0 <= v <= 0xa8d9
    ||| 0xa900 <= v <= 0xa909
    ||| 0xa9d0 <= v <= 0xa9d9
    ||| 0xa9f0 <= v <= 0xa9f9
    ||| 0xaa50 <= v <= 0xaa59
    ||| 0xabf0 <= v <= 0xabf9
    ||| 0xff10 <= v <= 0xff19
    ||| 0x104a0 <= v <= 0x104a9
    ||| 0x10d30 <= v <= 0x10d39
    ||| 0x10d40 <= v <= 0x10d49
    ||| 0x11066 <= v <= 0x1106f
    ||| 0x110f0 <= v <= 0x110f9
    ||| 0x11136 <= v <= 0x1113f
    ||| 0x111d0 <= v <= 0x111d9
    ||| 0x112f0 <= v <= 0x112f9
    ||| 0x11450 <= v <= 0x11459
    ||| 0x114d0 <= v <= 0x114d9
    ||| 0x11650 <= v <= 0x11659
    ||| 0x116c0 <= v <= 0x116c9
    ||| 0x116d0 <= v <= 0x116e3
    ||| 0x11730 <= v <= 0x11739
    ||| 0x118e0 <= v <= 0x118e9
    ||| 0x11950 <= v <= 0x11959
    ||| 0x11bf0 <= v <= 0x11bf9
    ||| 0x11c50 <= v <= 0x11c59
    ||| 0x11d50 <= v <= 0x11d59
    ||| 0x11da0 <= v <= 0x11da9
    ||| 0x11f50 <= v <= 0x11f59
    ||| 0x16130 <= v <= 0x16139
    ||| 0x16a60 <= v <= 0x16a69
    ||| 0x16ac0 <= v <= 0x16ac9
    ||| 0x16b50 <= v <= 0x16b59
    ||| 0x16d70 <= v <= 0x16d79
    ||| 0x1ccf0 <= v <= 0x1ccf9
    ||| 0x1d7ce <= v <= 0x1d7ff
    ||| 0x1e140 <= v <= 0x1e149
    ||| 0x1e2f0 <= v <= 0x1e2f9
    ||| 0x1e4f0 <= v <= 0x1e4f9
    ||| 0x1e5f1 <= v <= 0x1e5fa
    ||| 0x1e950 <= v <= 0x1e959
    ||| 0x1fbf0 <= v <= 0x1fbf9
}

/// Whether a character is a decimal digit of any script.
pub fn decimal_digit(c: char) -> (b: bool)
    ensures
        b == is_decimal_digit(c),
{
    let v = c as u32;
    (0x30 <= v && v <= 0x39) ||
        (0x660 <= v && v <= 0x669) ||
        (0x6f0 <= v && v <= 0x6f9) ||
        (0x7c0 <= v && v <= 0x7c9) ||
        (0x966 <= v && v <= 0x96f) ||
        (0x9e6 <= v && v <= 0x9ef) ||
        (0xa66 <= v && v <= 0xa6f) ||
        (0xae6 <= v && v <= 0xaef) ||
        (0xb66 <= v && v <= 0xb6f) ||
        (0xbe6 <= v && v <= 0xbef) ||
        (0xc66 <= v && v <= 0xc6f) ||
        (0xce6 <= v && v <= 0xcef) ||
        (0xd66 <= v && v <= 0xd6f) ||
        (0xde6 <= v && v <= 0xdef) ||
        (0xe50 <= v && v <= 0xe59) ||
        (0xed0 <= v && v <= 0xed9) ||
        (0xf20 <= v && v <= 0xf29) ||
        (0x1040 <= v && v <= 0x1049) ||
        (0x1090 <= v && v <= 0x1099) ||
        (0x17e0 <= v && v <= 0x17e9) ||
        (0x1810 <= v && v <= 0x1819) ||
        (0x1946 <= v && v <= 0x194f) ||
        (0x19d0 <= v && v <= 0x19d9) ||
        (0x1a80 <= v && v <= 0x1a89) ||
        (0x1a90 <= v && v <= 0x1a99) ||
        (0x1b50 <= v && v <= 0x1b59) ||
        (0x1bb0 <= v && v <= 0x1bb9) ||
        (0x1c40 <= v && v <= 0x1c49) ||
        (0x1c50 <= v && v <= 0x1c59) ||
        (0xa620 <= v && v <= 0xa629) ||
        (0xa8d0 <= v && v <= 0xa8d9) ||
        (0xa900 <= v && v <= 0xa909) ||
        (0xa9d0 <= v && v <= 0xa9d9) ||
        (0xa9f0 <= v && v <= 0xa9f9) ||
        (0xaa50 <= v && v <= 0xaa59) ||
        (0xabf0 <= v && v <= 0xabf9) ||
        (0xff10 <= v && v <= 0xff19) ||
        (0x104a0 <= v && v <= 0x104a9) ||
        (0x10d30 <= v && v <= 0x10d39) ||
        (0x10d40 <= v && v <= 0x10d49) ||
        (0x11066 <= v && v <= 0x1106f) ||
        (0x110f0 <= v && v <= 0x110f9) ||
        (0x11136 <= v && v <= 0x1113f) ||
        (0x111d0 <= v && v <= 0x111d9) ||
        (0x112f0 <= v && v <= 0x112f9) ||
        (0x11450 <= v && v <= 0x11459) ||
        (0x114d0 <= v && v <= 0x114d9) ||
        (0x11650 <= v && v <= 0x11659) ||
        (0x116c0 <= v && v <= 0x116c9) ||
        (0x116d0 <= v && v <= 0x116e3) ||
        (0x11730 <= v && v <= 0x11739) ||
        (0x118e0 <= v && v <= 0x118e9) ||
        (0x11950 <= v && v <= 0x11959) ||
        (0x11bf0 <= v && v <= 0x11bf9) ||
        (0x11c50 <= v && v <= 0x11c59) ||
        (0x11d50 <= v && v <= 0x11d59) ||
        (0x11da0 <= v && v <= 0x11da9) ||
        (0x11f50 <= v && v <= 0x11f59) ||
        (0x16130 <= v && v <= 0x16139) ||
        (0x16a60 <= v && v <= 0x16a69) ||
        (0x16ac0 <= v && v <= 0x16ac9) ||
        (0x16b50 <= v && v <= 0x16b59) ||
        (0x16d70 <= v && v <= 0x16d79) ||
        (0x1ccf0 <= v && v <= 0x1ccf9) ||
        (0x1d7ce <= v && v <= 0x1d7ff) ||
        (0x1e140 <= v && v <= 0x1e149) ||
        (0x1e2f0 <= v && v <= 0x1e2f9) ||
        (0x1e4f0 <= v && v <= 0x1e4f9) ||
        (0x1e5f1 <= v && v <= 0x1e5fa) ||
        (0x1e950 <= v && v <= 0x1e959) ||
        (0x1fbf0 <= v && v <= 0x1fbf9)
}

pub open spec fn is_ascii_digit(c: char) -> bool {
    '0' <= c <= '9'
}

/// A non-empty run of decimal digits.
pub open spec fn digit_run(s: Seq<char>) -> bool {
    s.len() > 0 && forall|i: int| 0 <= i < s.len() ==> is_decimal_digit(#[trigger] s[i])
}

/// The number that a run of ASCII decimal digits spells.
pub open spec fn decimal_value(s: Seq<char>) -> nat
    decreases s.len(),
{
    if s.len() == 0 {
        0
    } else {
        decimal_value(s.drop_last()) * 10 + (s.last() as u32 - 48) as nat
    }
}

/// The number that a field spells, as `str::parse::<usize>` reads it: only
/// ASCII digits are read, and the number must fit in `usize`.
pub open spec fn field_number(f: Seq<char>) -> Option<usize> {
    if (forall|i: int| 0 <= i < f.len() ==> is_ascii_digit(#[trigger] f[i])) && decimal_value(f) <= usize::MAX {
        Some(decimal_value(f) as usize)
    } else {
        None
    }
}

/// The characters of `path-`.
pub open spec fn name_head() -> Seq<char> {
    seq!['p', 'a', 't', 'h', '-']
}

/// The characters of `.json`.
pub open spec fn name_tail() -> Seq<char> {
    seq!['.', 'j', 's', 'o', 'n']
}

/// `name` is `pre`, then `path-`, the three fields separated by `-`, and
/// `.json` at its very end.
pub open spec fn window_name_layout(name: Seq<char>, pre: Seq<char>, f1: Seq<char>, f2: Seq<char>, f3: Seq<char>) -> bool {
    &&& digit_run(f1)
    &&& digit_run(f2)
    &&& digit_run(f3)
    &&& name == pre + name_head() + f1 + seq!['-'] + f2 + seq!['-'] + f3 + name_tail()
}

/// The name ends in a window file name.
pub open spec fn is_window_name(name: Seq<char>) -> bool {
    exists|pre: Seq<char>, f1: Seq<char>, f2: Seq<char>, f3: Seq<char>| window_name_layout(name, pre, f1, f2, f3)
}

/// A field of the window file name is not a number that fits in `usize`:
/// it holds a decimal digit of another script than ASCII, or is too large.
#[derive(Clone, Copy, PartialEq, Eq, Debug)]
pub enum WindowNameError {
    InvalidNumber,
}

/// The three fields of a window file name, if the name is one.
pub open spec fn window_name_fields(name: Seq<char>) -> Option<(Seq<char>, Seq<char>, Seq<char>)> {
    if is_window_name(name) {
        let (pre, f1, f2, f3) = choose|pre: Seq<char>, f1: Seq<char>, f2: Seq<char>, f3: Seq<char>|
            window_name_layout(name, pre, f1, f2, f3);
        Some((f1, f2, f3))
    } else {
        None
    }
}

/// What a file name reads as: nothing when it is no window file name, the
/// window number and the two offsets when all three fields are numbers,
/// an error otherwise.
pub open spec fn read_window_name(name: Seq<char>) -> Result<Option<(usize, usize, usize)>, WindowNameError> {
    match window_name_fields(name) {
        None => Ok(None),
        Some((f1, f2, f3)) => match (field_number(f1), field_number(f2), field_number(f3)) {
            (Some(a), Some(b), Some(c)) => Ok(Some((a, b, c))),
            _ => Err(WindowNameError::InvalidNumber),
        },
    }
}

/// Where the run of digits that ends at `e` begins.
pub open spec fn digit_run_start(s: Seq<char>, e: int) -> int
    decreases e,
{
    if e <= 0 || !is_decimal_digit(s[e - 1]) {
        e
    } else {
        digit_run_start(s, e - 1)
    }
}

proof fn lemma_digit_run_start(s: Seq<char>, e: int)
    requires
        0 <= e <= s.len(),
    ensures
        0 <= digit_run_start(s, e) <= e,
        forall|i: int| digit_run_start(s, e) <= i < e ==> is_decimal_digit(#[trigger] s[i]),
        digit_run_start(s, e) > 0 ==> !is_decimal_digit(s[digit_run_start(s, e) - 1]),
    decreases e,
{
    if e > 0 && is_decimal_digit(s[e - 1]) {
        lemma_digit_run_start(s, e - 1);
    }
}

/// A run of digits preceded by a non-digit starts right after it.
proof fn lemma_digit_run_start_at(s: Seq<char>, k: int, e: int)
    requires
        1 <= k <= e <= s.len(),
        !is_decimal_digit(s[k - 1]),
        forall|i: int| k <= i < e ==> is_decimal_digit(#[trigger] s[i]),
    ensures
        digit_run_start(s, e) == k,
    decreases e - k,
{
    if e > k {
        lemma_digit_run_start_at(s, k, e - 1);
    }
}

/// Where the fields of a window file name stand in it.
proof fn lemma_layout_positions(name: Seq<char>, pre: Seq<char>, f1: Seq<char>, f2: Seq<char>, f3: Seq<char>)
    requires
        window_name_layout(name, pre, f1, f2, f3),
    ensures
        ({
            let n = name.len() as int;
            let e3 = n - 5;
            let k3 = e3 - f3.len();
            let e2 = k3 - 1;
            let k2 = e2 - f2.len();
            let e1 = k2 - 1;
            let k1 = e1 - f1.len();
            &&& n >= 5
            &&& name.subrange(e3, n) == name_tail()
            &&& name[n - 5] == '.' && name[n - 4] == 'j' && name[n - 3] == 's'
            &&& name[n - 2] == 'o' && name[n - 1] == 'n'
            &&& name[k1 - 5] == 'p' && name[k1 - 4] == 'a' && name[k1 - 3] == 't'
            &&& name[k1 - 2] == 'h' && name[k1 - 1] == '-'
            &&& digit_run_start(name, e3) == k3
            &&& k3 >= 1 && name[k3 - 1] == '-'
            &&& digit_run_start(name, e2) == k2
            &&& k2 >= 1 && name[k2 - 1] == '-'
            &&& digit_run_start(name, e1) == k1
            &&& k1 >= 5 && name.subrange(k1 - 5, k1) == name_head()
            &&& k1 - 5 == pre.len()
            &&& name.subrange(k1, e1) == f1
            &&& name.subrange(k2, e2) == f2
            &&& name.subrange(k3, e3) == f3
        }),
{
    let n = name.len() as int;
    let p = pre.len() as int;
    let a = p + 5;
    let b = a + f1.len();
    let c = b + 1 + f2.len();
    let d = c + 1 + f3.len();
    assert(n == d + 5);
    assert forall|i: int| 0 <= i < 5 implies #[trigger] name[p + i] == name_head()[i] by {}
    assert forall|i: int| 0 <= i < f1.len() implies #[trigger] name[a + i] == f1[i] by {}
    assert(name[b] == '-');
    assert forall|i: int| 0 <= i < f2.len() implies #[trigger] name[b + 1 + i] == f2[i] by {}
    assert(name[c] == '-');
    assert forall|i: int| 0 <= i < f3.len() implies #[trigger] name[c + 1 + i] == f3[i] by {}
    assert forall|i: int| 0 <= i < 5 implies #[trigger] name[d + i] == name_tail()[i] by {}
    assert(name.subrange(d, n) =~= name_tail());
    assert(name.subrange(p, a) =~= name_head());
    assert(name.subrange(a, b) =~= f1);
    assert(name.subrange(b + 1, c) =~= f2);
    assert(name.subrange(c + 1, d) =~= f3);
    assert forall|i: int| c + 1 <= i < d implies is_decimal_digit(#[trigger] name[i]) by {
        assert(name[c + 1 + (i - c - 1)] == f3[i - c - 1]);
    }
    lemma_digit_run_start_at(name, c + 1, d);
    assert forall|i: int| b + 1 <= i < c implies is_decimal_digit(#[trigger] name[i]) by {
        assert(name[b + 1 + (i - b - 1)] == f2[i - b - 1]);
    }
    lemma_digit_run_start_at(name, b + 1, c);
    assert forall|i: int| a <= i < b implies is_decimal_digit(#[trigger] name[i]) by {
        assert(name[a + (i - a)] == f1[i - a]);
    }
    assert(name[a - 1] == name_head()[4]);
    lemma_digit_run_start_at(name, a, b);
}

/// A window file name determines its fields.
pub proof fn lemma_window_name_fields_unique(
    name: Seq<char>,
    pre: Seq<char>,
    f1: Seq<char>,
    f2: Seq<char>,
    f3: Seq<char>,
    pre2: Seq<char>,
    g1: Seq<char>,
    g2: Seq<char>,
    g3: Seq<char>,
)
    requires
        window_name_layout(name, pre, f1, f2, f3),
        window_name_layout(name, pre2, g1, g2, g3),
    ensures
        pre == pre2 && f1 == g1 && f2 == g2 && f3 == g3,
{
    lemma_layout_positions(name, pre, f1, f2, f3);
    lemma_layout_positions(name, pre2, g1, g2, g3);
    assert(name.subrange(0, pre.len() as int) =~= pre);
    assert(name.subrange(0, pre2.len() as int) =~= pre2);
}

/// The number spelt by the field `s[lo..hi]`, read as
/// `str::parse::<usize>` reads it.
fn parse_decimal(s: &[char], lo: usize, hi: usize) -> (r: Option<usize>)
    requires
        lo <= hi <= s.len(),
    ensures
        r == field_number(s@.subrange(lo as int, hi as int)),
{
    let ghost f = s@.subrange(lo as int, hi as int);
    let mut v: usize = 0;
    let mut k = lo;
    while k < hi
        invariant
            lo <= k <= hi <= s.len(),
            f == s@.subrange(lo as int, hi as int),
            forall|i: int| lo <= i < k ==> is_ascii_digit(#[trigger] s@[i]),
            v == decimal_value(s@.subrange(lo as int, k as int)),
        decreases hi - k,
    {
        let c = s[k];
        if c < '0' || c > '9' {
            proof {
                assert(!is_ascii_digit(f[k - lo]));
            }
            return None;
        }
        let digit = (c as u32 - 48) as usize;
        proof {
            assert(s@.subrange(lo as int, k + 1).drop_last() =~= s@.subrange(lo as int, k as int));
        }
        if v > (usize::MAX - digit) / 10 {
            proof {
                assert(decimal_value(s@.subrange(lo as int, k + 1)) > usize::MAX) by (nonlinear_arith)
                    requires
                        decimal_value(s@.subrange(lo as int, k + 1)) == v * 10 + digit,
                        v > (usize::MAX - digit) / 10,
                        digit <= 9,
                ;
                lemma_decimal_value_prefix(f, (k + 1 - lo) as int);
                assert(f.take((k + 1 - lo) as int) =~= s@.subrange(lo as int, k + 1));
            }
            return None;
        }
        v = v * 10 + digit;
        k = k + 1;
    }
    proof {
        assert(s@.subrange(lo as int, k as int) =~= f);
        assert forall|i: int| 0 <= i < f.len() implies is_ascii_digit(#[trigger] f[i]) by {
            assert(f[i] == s@[lo + i]);
        }
    }
    Some(v)
}

/// A number never spells less than any of its leading digits do.
proof fn lemma_decimal_value_prefix(s: Seq<char>, k: int)
    requires
        0 <= k <= s.len(),
    ensures
        decimal_value(s.take(k)) <= decimal_value(s),
    decreases s.len() - k,
{
    if k < s.len() {
        lemma_decimal_value_prefix(s, k + 1);
        assert(s.take(k + 1).drop_last() =~= s.take(k));
    } else {
        assert(s.take(k) =~= s);
    }
}

/// The fields of a window file name, as the bounds `[k, e)` of each of
/// the three runs of digits, if the name is one.
pub open spec fn fields_at(name: Seq<char>, b: (usize, usize, usize, usize, usize, usize)) -> bool {
    let (k1, e1, k2, e2, k3, e3) = b;
    &&& 5 <= k1 <= e1 <= k2 <= e2 <= k3 <= e3 <= name.len()
    &&& window_name_layout(
        name,
        name.subrange(0, k1 - 5),
        name.subrange(k1 as int, e1 as int),
        name.subrange(k2 as int, e2 as int),
        name.subrange(k3 as int, e3 as int),
    )
}

/// The checks that the fields of a window file name pass, found by
/// reading back from the end of the name.
pub open spec fn scan_accepts(name: Seq<char>) -> bool {
    let n = name.len() as int;
    let e3 = n - 5;
    let k3 = digit_run_start(name, e3);
    let e2 = k3 - 1;
    let k2 = digit_run_start(name, e2);
    let e1 = k2 - 1;
    let k1 = digit_run_start(name, e1);
    &&& n >= 5
    &&& name[n - 5] == '.' && name[n - 4] == 'j' && name[n - 3] == 's'
    &&& name[n - 2] == 'o' && name[n - 1] == 'n'
    &&& k3 < e3 && k3 >= 1 && name[k3 - 1] == '-'
    &&& k2 < e2 && k2 >= 1 && name[k2 - 1] == '-'
    &&& k1 < e1 && k1 >= 5
    &&& name[k1 - 5] == 'p' && name[k1 - 4] == 'a' && name[k1 - 3] == 't'
    &&& name[k1 - 2] == 'h' && name[k1 - 1] == '-'
}

proof fn lemma_window_name_scan(name: Seq<char>)
    requires
        is_window_name(name),
    ensures
        scan_accepts(name),
{
    let (pre, f1, f2, f3) = choose|pre: Seq<char>, f1: Seq<char>, f2: Seq<char>, f3: Seq<char>|
        window_name_layout(name, pre, f1, f2, f3);
    lemma_layout_positions(name, pre, f1, f2, f3);
}

proof fn lemma_scan_layout(name: Seq<char>)
    requires
        scan_accepts(name),
    ensures
        ({
            let n = name.len() as int;
            let e3 = n - 5;
            let k3 = digit_run_start(name, e3);
            let e2 = k3 - 1;
            let k2 = digit_run_start(name, e2);
            let e1 = k2 - 1;
            let k1 = digit_run_start(name, e1);
            window_name_layout(
                name,
                name.subrange(0, k1 - 5),
                name.subrange(k1, e1),
                name.subrange(k2, e2),
                name.subrange(k3, e3),
            )
        }),
{
    let n = name.len() as int;
    let e3 = n - 5;
    lemma_digit_run_start(name, e3);
    let k3 = digit_run_start(name, e3);
    let e2 = k3 - 1;
    lemma_digit_run_start(name, e2);
    let k2 = digit_run_start(name, e2);
    let e1 = k2 - 1;
    lemma_digit_run_start(name, e1);
    let k1 = digit_run_start(name, e1);
    let pre = name.subrange(0, k1 - 5);
    let f1 = name.subrange(k1, e1);
    let f2 = name.subrange(k2, e2);
    let f3 = name.subrange(k3, e3);
    assert(name =~= pre + name_head() + f1 + seq!['-'] + f2 + seq!['-'] + f3 + name_tail());
}

fn locate_window_fields(name: &[char]) -> (r: Option<(usize, usize, usize, usize, usize, usize)>)
    ensures
        r is None <==> !is_window_name(name@),
        r matches Some(b) ==> fields_at(name@, b),
{
    proof {
        if is_window_name(name@) {
            lemma_window_name_scan(name@);
        }
    }
    let n = name.len();
    if n < 5 || name[n - 5] != '.' || name[n - 4] != 'j' || name[n - 3] != 's' || name[n - 2] != 'o'
        || name[n - 1] != 'n' {
        return None;
    }
    let e3 = n - 5;
    let k3 = digit_start(name, e3);
    proof {
        lemma_digit_run_start(name@, e3 as int);
    }
    if k3 == e3 || k3 == 0 || name[k3 - 1] != '-' {
        return None;
    }
    let e2 = k3 - 1;
    let k2 = digit_start(name, e2);
    proof {
        lemma_digit_run_start(name@, e2 as int);
    }
    if k2 == e2 || k2 == 0 || name[k2 - 1] != '-' {
        return None;
    }
    let e1 = k2 - 1;
    let k1 = digit_start(name, e1);
    proof {
        lemma_digit_run_start(name@, e1 as int);
    }
    if k1 == e1 || k1 < 5 || name[k1 - 5] != 'p' || name[k1 - 4] != 'a' || name[k1 - 3] != 't'
        || name[k1 - 2] != 'h' || name[k1 - 1] != '-' {
        return None;
    }
    proof {
        assert(scan_accepts(name@));
        lemma_scan_layout(name@);
        assert(window_name_layout(
            name@,
            name@.subrange(0, k1 - 5),
            name@.subrange(k1 as int, e1 as int),
            name@.subrange(k2 as int, e2 as int),
            name@.subrange(k3 as int, e3 as int),
        ));
    }
    Some((k1, e1, k2, e2, k3, e3))
}

/// The characters of a text.
fn text_chars(s: &str) -> (r: Vec<char>)
    ensures
        r@ == s@,
{
    let mut r: Vec<char> = Vec::new();
    for c in it: s.chars()
        invariant
            it.seq() == s@,
            r@ == it.seq().take(it.index() as int),
    {
        r.push(c);
        assert(r@ =~= it.seq().take(it.index() + 1));
    }
    assert(s@.take(s@.len() as int) =~= s@);
    r
}

/// Reads the window number and the two offsets out of a file name that
/// ends in `path-<window>-<left offset>-<right offset>.json`, each field a
/// run of decimal digits. Names of other files give `None`; a field that
/// `str::parse::<usize>` would refuse is an error.
pub fn parse_window_file_name(name: &str) -> (r: Result<Option<(usize, usize, usize)>, WindowNameError>)
    ensures
        r == read_window_name(name@),
{
    let chars = text_chars(name);
    let bounds = locate_window_fields(&chars);
    match bounds {
        None => Ok(None),
        Some((k1, e1, k2, e2, k3, e3)) => {
            let ghost pre = chars@.subrange(0, k1 - 5);
            let ghost f1 = chars@.subrange(k1 as int, e1 as int);
            let ghost f2 = chars@.subrange(k2 as int, e2 as int);
            let ghost f3 = chars@.subrange(k3 as int, e3 as int);
            proof {
                let (pre2, g1, g2, g3) = choose|pre2: Seq<char>, g1: Seq<char>, g2: Seq<char>, g3: Seq<char>|
                    window_name_layout(name@, pre2, g1, g2, g3);
                lemma_window_name_fields_unique(name@, pre, f1, f2, f3, pre2, g1, g2, g3);
                assert(window_name_fields(name@) == Some((f1, f2, f3)));
            }
            let a = parse_decimal(&chars, k1, e1);
            let b = parse_decimal(&chars, k2, e2);
            let c = parse_decimal(&chars, k3, e3);
            match (a, b, c) {
                (Some(i), Some(dy), Some(dx)) => Ok(Some((i, dy, dx))),
                _ => Err(WindowNameError::InvalidNumber),
            }
        },
    }
}

/// Where the run of digits that ends at `e` begins.
fn digit_start(s: &[char], e: usize) -> (k: usize)
    requires
        e <= s.len(),
    ensures
        k == digit_run_start(s@, e as int),
{
    let mut k = e;
    while k > 0 && decimal_digit(s[k - 1])
        invariant
            k <= e <= s.len(),
            digit_run_start(s@, k as int) == digit_run_start(s@, e as int),
        decreases k,
    {
        k = k - 1;
    }
    k
}

} // verus!
