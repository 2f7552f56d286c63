//! Character-level helpers shared by the text formats of the library:
//! whitespace, runs of characters before a stop character, whitespace
//! separated words and unsigned decimal numbers.
use vstd::prelude::*;

verus! {

/// Whitespace as `char::is_whitespace` defines it (the Unicode `White_Space` property).
pub open spec fn is_space(c: char) -> bool {
    let u = c as u32;
    ||| 0x09 <= u <= 0x0D
    ||| u == 0x20
    ||| u == 0x85
    ||| u == 0xA0
    ||| u == 0x1680
    ||| 0x2000 <= u <= 0x200A
    ||| u == 0x2028
    ||| u == 0x2029
    ||| u == 0x202F
    ||| u == 0x205F
    ||| u == 0x3000
}

/// Number of leading characters of `s` before the first `stop` (all of `s` when there is none).
pub open spec fn run_before(s: Seq<char>, stop: char) -> nat
    decreases s.len(),
{
    if s.len() == 0 || s[0] == stop {
        0
    } else {
        1 + run_before(s.drop_first(), stop)
    }
}

/// Number of leading characters of `s` that are not whitespace.
pub open spec fn word_len(s: Seq<char>) -> nat
    decreases s.len(),
{
    if s.len() == 0 || is_space(s[0]) {
        0
    } else {
        1 + word_len(s.drop_first())
    }
}

/// The maximal runs of non-whitespace characters of `s`, in order
/// (what `str::split_whitespace` yields).
pub open spec fn words(s: Seq<char>) -> Seq<Seq<char>>
    decreases s.len(),
{
    if s.len() == 0 {
        seq![]
    } else if is_space(s[0]) {
        words(s.drop_first())
    } else {
        let n = word_len(s);
        proof {
            lemma_word_len_bound(s);
        }
        seq![s.take(n as int)] + words(s.skip(n as int))
    }
}

pub open spec fn is_digit(c: char) -> bool {
    0x30 <= (c as u32) <= 0x39
}

pub open spec fn all_digits(s: Seq<char>) -> bool {
    forall|i: int| 0 <= i < s.len() ==> #[trigger] is_digit(s[i])
}

/// The value of a string of decimal digits.
pub open spec fn decimal_value(s: Seq<char>) -> nat
    decreases s.len(),
{
    if s.len() == 0 {
        0
    } else {
        decimal_value(s.drop_last()) * 10 + ((s.last() as u32) - 0x30) as nat
    }
}

/// What `str::parse` gives for an unsigned integer type whose largest value is `max`:
/// an optional leading `+`, then at least one ASCII digit and nothing else,
/// with a value that fits.
pub open spec fn parse_unsigned(s: Seq<char>, max: int) -> Option<nat> {
    let digits = if s.len() > 0 && s[0] == '+' {
        s.drop_first()
    } else {
        s
    };
    if digits.len() > 0 && all_digits(digits) && decimal_value(digits) <= max {
        Some(decimal_value(digits))
    } else {
        None
    }
}

/// The parsed value, or 0 where parsing fails (`parse().unwrap_or(0)`).
pub open spec fn parse_or_zero(s: Seq<char>, max: int) -> nat {
    match parse_unsigned(s, max) {
        Some(v) => v,
        None => 0,
    }
}

pub proof fn lemma_word_len_bound(s: Seq<char>)
    ensures
        word_len(s) <= s.len(),
        s.len() > 0 && !is_space(s[0]) ==> word_len(s) >= 1,
    decreases s.len(),
{
    if s.len() > 0 && !is_space(s[0]) {
        lemma_word_len_bound(s.drop_first());
    }
}

/// `m` is the length of the leading run of `s` without `stop`.
pub proof fn lemma_run_before(s: Seq<char>, stop: char, m: nat)
    requires
        m <= s.len(),
        forall|j: int| 0 <= j < m ==> s[j] != stop,
        m == s.len() || s[m as int] == stop,
    ensures
        run_before(s, stop) == m,
    decreases m,
{
    if m > 0 {
        lemma_run_before(s.drop_first(), stop, (m - 1) as nat);
    }
}

/// `m` is the length of the leading word of `s`.
pub proof fn lemma_word_len(s: Seq<char>, m: nat)
    requires
        m <= s.len(),
        forall|j: int| 0 <= j < m ==> !is_space(s[j]),
        m == s.len() || is_space(s[m as int]),
    ensures
        word_len(s) == m,
    decreases m,
{
    if m > 0 {
        lemma_word_len(s.drop_first(), (m - 1) as nat);
    }
}

/// The run before `stop` in a concatenation.
pub proof fn lemma_run_before_concat(a: Seq<char>, b: Seq<char>, stop: char)
    ensures
        run_before(a, stop) < a.len() ==> run_before(a + b, stop) == run_before(a, stop),
        run_before(a, stop) == a.len() ==> run_before(a + b, stop) == a.len() + run_before(
            b,
            stop,
        ),
        run_before(a, stop) <= a.len(),
    decreases a.len(),
{
    if a.len() > 0 {
        assert((a + b).drop_first() =~= a.drop_first() + b);
        lemma_run_before_concat(a.drop_first(), b, stop);
    } else {
        assert(a + b =~= b);
    }
}

/// Every word is a non-empty run of characters.
pub proof fn lemma_words_nonempty(s: Seq<char>)
    ensures
        forall|k: int| 0 <= k < words(s).len() ==> (#[trigger] words(s)[k]).len() > 0,
    decreases s.len(),
{
    if s.len() > 0 {
        if is_space(s[0]) {
            lemma_words_nonempty(s.drop_first());
            assert(words(s) == words(s.drop_first()));
        } else {
            let n = word_len(s);
            lemma_word_len_bound(s);
            lemma_words_nonempty(s.skip(n as int));
            let rest = words(s.skip(n as int));
            assert(words(s) == seq![s.take(n as int)] + rest);
            assert forall|k: int| 0 <= k < words(s).len() implies (#[trigger] words(s)[k]).len() > 0 by {
                if k > 0 {
                    assert(words(s)[k] == rest[k - 1]);
                } else {
                    assert(words(s)[k] == s.take(n as int));
                }
            }
        }
    }
}

/// A longer string of digits never has a smaller value than its prefix.
pub proof fn lemma_decimal_prefix(s: Seq<char>, i: int)
    requires
        0 <= i <= s.len(),
    ensures
        decimal_value(s.take(i)) <= decimal_value(s),
    decreases s.len(),
{
    if i < s.len() {
        assert(s.drop_last().take(i) =~= s.take(i));
        lemma_decimal_prefix(s.drop_last(), i);
    } else {
        assert(s.take(i) =~= s);
    }
}

/// Whitespace test, as `char::is_whitespace`.
pub fn is_space_char(c: char) -> (b: bool)
    ensures
        b == is_space(c),
{
    let u = c as u32;
    (0x09 <= u && u <= 0x0D) || u == 0x20 || u == 0x85 || u == 0xA0 || u == 0x1680 || (0x2000
        <= u && u <= 0x200A) || u == 0x2028 || u == 0x2029 || u == 0x202F || u == 0x205F || u
        == 0x3000
}

/// Collects the characters of `s` into a vector.
pub fn chars_of(s: &str) -> (out: Vec<char>)
    ensures
        out@ == s@,
{
    let mut out: Vec<char> = Vec::new();
    for c in it: s.chars()
        invariant
            out@ == it.seq().take(it.index() as int),
    {
        out.push(c);
    }
    out
}

/// Index of the first `stop` in `cs[lo..hi]`, or `hi`.
pub fn find_char(cs: &Vec<char>, lo: usize, hi: usize, stop: char) -> (p: usize)
    requires
        lo <= hi <= cs@.len(),
    ensures
        lo <= p <= hi,
        p - lo == run_before(cs@.subrange(lo as int, hi as int), stop),
{
    let mut p = lo;
    while p < hi && cs[p] != stop
        invariant
            lo <= p <= hi <= cs@.len(),
            forall|j: int| lo <= j < p ==> cs@[j] != stop,
        decreases hi - p,
    {
        p += 1;
    }
    proof {
        lemma_run_before(cs@.subrange(lo as int, hi as int), stop, (p - lo) as nat);
    }
    p
}

/// `cs[lo..hi]` parsed as an unsigned decimal number that fits in `usize`.
pub fn parse_usize(cs: &Vec<char>, lo: usize, hi: usize) -> (r: Option<usize>)
    requires
        lo <= hi <= cs@.len(),
    ensures
        match r {
            Some(v) => parse_unsigned(cs@.subrange(lo as int, hi as int), usize::MAX as int)
                == Some(v as nat),
            None => parse_unsigned(cs@.subrange(lo as int, hi as int), usize::MAX as int)
                is None,
        },
{
    let ghost s = cs@.subrange(lo as int, hi as int);
    let mut start = lo;
    if lo < hi && cs[lo] == '+' {
        start = lo + 1;
    }
    let ghost digits = cs@.subrange(start as int, hi as int);
    assert(digits =~= (if s.len() > 0 && s[0] == '+' {
        s.drop_first()
    } else {
        s
    }));
    if start == hi {
        return None;
    }
    let mut acc: usize = 0;
    let mut i = start;
    while i < hi
        invariant
            lo <= start <= i <= hi <= cs@.len(),
            start < hi,
            s == cs@.subrange(lo as int, hi as int),
            digits == cs@.subrange(start as int, hi as int),
            digits == (if s.len() > 0 && s[0] == '+' {
                s.drop_first()
            } else {
                s
            }),
            acc == decimal_value(cs@.subrange(start as int, i as int)),
            forall|j: int| start <= j < i ==> is_digit(#[trigger] cs@[j]),
        decreases hi - i,
    {
        let c = cs[i];
        let u = c as u32;
        if u < 0x30 || u > 0x39 {
            assert(!is_digit(digits[i - start]));
            return None;
        }
        let ghost prefix = cs@.subrange(start as int, i + 1);
        assert(prefix.drop_last() =~= cs@.subrange(start as int, i as int));
        assert(digits.take(i + 1 - start) =~= prefix);
        match acc.checked_mul(10) {
            Some(m) => {
                match m.checked_add((u - 0x30) as usize) {
                    Some(next) => {
                        acc = next;
                    },
                    None => {
                        proof {
                            if all_digits(digits) {
                                lemma_decimal_prefix(digits, i + 1 - start);
                            }
                        }
                        return None;
                    },
                }
            },
            None => {
                proof {
                    if all_digits(digits) {
                        lemma_decimal_prefix(digits, i + 1 - start);
                    }
                }
                return None;
            },
        }
        i += 1;
    }
    assert(all_digits(digits)) by {
        assert forall|j: int| 0 <= j < digits.len() implies is_digit(digits[j]) by {
            assert(digits[j] == cs@[start + j]);
        }
    }
    Some(acc)
}

/// `cs[lo..hi]` parsed as a `u32`, or 0 where that fails.
pub fn parse_u32_or_zero(cs: &Vec<char>, lo: usize, hi: usize) -> (v: u32)
    requires
        lo <= hi <= cs@.len(),
    ensures
        v == parse_or_zero(cs@.subrange(lo as int, hi as int), u32::MAX as int),
{
    match parse_usize(cs, lo, hi) {
        Some(v) => {
            if v <= 0xFFFF_FFFF {
                v as u32
            } else {
                0
            }
        },
        None => 0,
    }
}

/// `cs[lo..hi]` parsed as a `usize`, or 0 where that fails.
pub fn parse_usize_or_zero(cs: &Vec<char>, lo: usize, hi: usize) -> (v: usize)
    requires
        lo <= hi <= cs@.len(),
    ensures
        v == parse_or_zero(cs@.subrange(lo as int, hi as int), usize::MAX as int),
{
    match parse_usize(cs, lo, hi) {
        Some(v) => v,
        None => 0,
    }
}

} // verus!
