//! Character-level operations on strings: comparison, whitespace, trimming,
//! and reading unsigned decimal numbers.
use vstd::prelude::*;
use vstd::string::*;

use crate::order::seq_lt;

verus! {

/// Dropping an equal prefix from both sides keeps their order.
pub proof fn lemma_seq_lt_skip(a: Seq<char>, b: Seq<char>, i: int)
    requires
        0 <= i <= a.len(),
        i <= b.len(),
        a.take(i) == b.take(i),
    ensures
        seq_lt(a, b) == seq_lt(a.skip(i), b.skip(i)),
    decreases i,
{
    if i > 0 {
        assert(a.take(i)[0] == a[0]);
        assert(b.take(i)[0] == b[0]);
        assert(a[0] == b[0]);
        assert(a.drop_first().take(i - 1) =~= a.take(i).drop_first());
        assert(b.drop_first().take(i - 1) =~= b.take(i).drop_first());
        lemma_seq_lt_skip(a.drop_first(), b.drop_first(), i - 1);
        assert(a.drop_first().skip(i - 1) =~= a.skip(i));
        assert(b.drop_first().skip(i - 1) =~= b.skip(i));
    } else {
        assert(a.skip(0) =~= a);
        assert(b.skip(0) =~= b);
    }
}

/// Whether `a` sorts before `b`, character by character.
pub fn str_lt(a: &str, b: &str) -> (r: bool)
    ensures
        r == seq_lt(a@, b@),
{
    let la = a.unicode_len();
    let lb = b.unicode_len();
    let mut i: usize = 0;
    while i < la && i < lb
        invariant
            la == a@.len(),
            lb == b@.len(),
            i <= la,
            i <= lb,
            a@.take(i as int) == b@.take(i as int),
        decreases la - i,
    {
        let ca = a.get_char(i);
        let cb = b.get_char(i);
        if ca != cb {
            proof {
                lemma_seq_lt_skip(a@, b@, i as int);
                assert(a@.skip(i as int)[0] == ca);
                assert(b@.skip(i as int)[0] == cb);
            }
            return (ca as u32) < (cb as u32);
        }
        assert(a@.take(i + 1) =~= a@.take(i as int).push(ca));
        assert(b@.take(i + 1) =~= b@.take(i as int).push(cb));
        i = i + 1;
    }
    proof {
        lemma_seq_lt_skip(a@, b@, i as int);
    }
    la < lb
}

/// Whether two strings hold the same characters.
pub fn str_eq(a: &str, b: &str) -> (r: bool)
    ensures
        r == (a@ == b@),
{
    let la = a.unicode_len();
    let lb = b.unicode_len();
    if la != lb {
        return false;
    }
    let mut i: usize = 0;
    while i < la
        invariant
            la == a@.len(),
            lb == b@.len(),
            la == lb,
            i <= la,
            a@.take(i as int) == b@.take(i as int),
        decreases la - i,
    {
        let ca = a.get_char(i);
        let cb = b.get_char(i);
        if ca != cb {
            return false;
        }
        assert(a@.take(i + 1) =~= a@.take(i as int).push(ca));
        assert(b@.take(i + 1) =~= b@.take(i as int).push(cb));
        i = i + 1;
    }
    assert(a@ =~= a@.take(i as int));
    assert(b@ =~= b@.take(i as int));
    true
}

/// The Unicode `White_Space` property, which is what `char::is_whitespace`
/// tests.
pub open spec fn is_space(c: char) -> bool {
    let u = c as u32;
    ||| 0x09 <= u <= 0x0d
    ||| u == 0x20
    ||| u == 0x85
    ||| u == 0xa0
    ||| u == 0x1680
    ||| 0x2000 <= u <= 0x200a
    ||| u == 0x2028
    ||| u == 0x2029
    ||| u == 0x202f
    ||| u == 0x205f
    ||| u == 0x3000
}

/// Whether `c` is whitespace.
pub fn char_is_space(c: char) -> (r: bool)
    ensures
        r == is_space(c),
{
    let u = c as u32;
    (0x09 <= u && u <= 0x0d) || u == 0x20 || u == 0x85 || u == 0xa0 || u == 0x1680 || (0x2000 <= u
        && u <= 0x200a) || u == 0x2028 || u == 0x2029 || u == 0x202f || u == 0x205f || u == 0x3000
}

/// Index of the first non-whitespace character at or after `from`, or the
/// length when there is none.
pub open spec fn first_ink_from(s: Seq<char>, from: int) -> int
    decreases s.len() - from,
{
    if from >= s.len() {
        s.len() as int
    } else if !is_space(s[from]) {
        from
    } else {
        first_ink_from(s, from + 1)
    }
}

/// One past the last non-whitespace character before `to`, or zero when there
/// is none.
pub open spec fn last_ink_before(s: Seq<char>, to: int) -> int
    decreases to,
{
    if to <= 0 {
        0
    } else if !is_space(s[to - 1]) {
        to
    } else {
        last_ink_before(s, to - 1)
    }
}

/// `s` with leading and trailing whitespace removed.
pub open spec fn trim(s: Seq<char>) -> Seq<char> {
    let lo = first_ink_from(s, 0);
    let hi = last_ink_before(s, s.len() as int);
    if lo >= hi {
        Seq::empty()
    } else {
        s.subrange(lo, hi)
    }
}

/// `s` with leading whitespace removed.
pub open spec fn trim_start(s: Seq<char>) -> Seq<char> {
    s.subrange(first_ink_from(s, 0), s.len() as int)
}

/// The characters of `s` with surrounding whitespace removed.
pub fn trimmed(s: &str) -> (r: String)
    ensures
        r@ == trim(s@),
{
    let n = s.unicode_len();
    let mut lo: usize = 0;
    while lo < n && char_is_space(s.get_char(lo))
        invariant
            n == s@.len(),
            lo <= n,
            first_ink_from(s@, lo as int) == first_ink_from(s@, 0),
        decreases n - lo,
    {
        lo = lo + 1;
    }
    let mut hi: usize = n;
    while hi > 0 && char_is_space(s.get_char(hi - 1))
        invariant
            n == s@.len(),
            hi <= n,
            last_ink_before(s@, hi as int) == last_ink_before(s@, n as int),
        decreases hi,
    {
        hi = hi - 1;
    }
    if lo >= hi {
        String::new()
    } else {
        let sub = s.substring_char(lo, hi);
        String::from_str(sub)
    }
}

/// Whether `s` holds no character.
pub fn str_is_empty(s: &str) -> (r: bool)
    ensures
        r == (s@.len() == 0),
{
    s.unicode_len() == 0
}

/// Index of the first whitespace character at or after `from`, or the length
/// when there is none.
pub open spec fn first_space_from(s: Seq<char>, from: int) -> int
    decreases s.len() - from,
{
    if from >= s.len() {
        s.len() as int
    } else if is_space(s[from]) {
        from
    } else {
        first_space_from(s, from + 1)
    }
}

/// Whether `s` holds a whitespace character.
pub open spec fn has_space(s: Seq<char>) -> bool {
    first_space_from(s, 0) < s.len()
}

pub proof fn lemma_first_space_bounds(s: Seq<char>, from: int)
    requires
        0 <= from <= s.len(),
    ensures
        from <= first_space_from(s, from) <= s.len(),
        first_space_from(s, from) < s.len() ==> is_space(s[first_space_from(s, from)]),
        forall|k: int| from <= k < first_space_from(s, from) ==> !is_space(#[trigger] s[k]),
    decreases s.len() - from,
{
    if from < s.len() && !is_space(s[from]) {
        lemma_first_space_bounds(s, from + 1);
    }
}

/// Index of the first whitespace character of `s`, or its length when it holds
/// none.
pub fn first_space(s: &str) -> (r: usize)
    ensures
        r == first_space_from(s@, 0),
{
    let n = s.unicode_len();
    let mut i: usize = 0;
    while i < n && !char_is_space(s.get_char(i))
        invariant
            n == s@.len(),
            i <= n,
            first_space_from(s@, i as int) == first_space_from(s@, 0),
        decreases n - i,
    {
        i = i + 1;
    }
    i
}

/// Whether `c` is an ASCII decimal digit.
pub open spec fn is_digit(c: char) -> bool {
    '0' <= c <= '9'
}

/// The number a run of decimal digits spells.
pub open spec fn digits_value(s: Seq<char>) -> int
    decreases s.len(),
{
    if s.len() == 0 {
        0
    } else {
        digits_value(s.drop_last()) * 10 + (s.last() as int - '0' as int)
    }
}

/// A run of digits never spells a negative number.
pub proof fn lemma_digits_value_nonneg(s: Seq<char>)
    requires
        all_digits(s),
    ensures
        digits_value(s) >= 0,
    decreases s.len(),
{
    if s.len() > 0 {
        assert(is_digit(s[s.len() - 1]));
        assert(all_digits(s.drop_last())) by {
            assert forall|i: int| 0 <= i < s.drop_last().len() implies is_digit(#[trigger] s.drop_last()[i]) by {
                assert(s.drop_last()[i] == s[i]);
            }
        }
        lemma_digits_value_nonneg(s.drop_last());
    }
}

/// Whether every character of `s` is a decimal digit.
pub open spec fn all_digits(s: Seq<char>) -> bool {
    forall|i: int| 0 <= i < s.len() ==> is_digit(#[trigger] s[i])
}

/// The unsigned number `s` states, as `str::parse` reads one: an optional
/// `+`, then one or more decimal digits, worth no more than `max`.
pub open spec fn parse_spec(s: Seq<char>, max: int) -> Option<int> {
    let digits = if s.len() > 0 && s[0] == '+' {
        s.drop_first()
    } else {
        s
    };
    if digits.len() > 0 && all_digits(digits) && digits_value(digits) <= max {
        Some(digits_value(digits))
    } else {
        None
    }
}

/// Read `s` as an unsigned number no greater than `max`.
pub fn parse_decimal(s: &str, max: u32) -> (r: Option<u32>)
    ensures
        match parse_spec(s@, max as int) {
            Some(v) => r == Some(v as u32),
            None => r is None,
        },
{
    let n = s.unicode_len();
    let mut start: usize = 0;
    if n > 0 && s.get_char(0) == '+' {
        start = 1;
    }
    let ghost digits = s@.skip(start as int);
    proof {
        if start == 1 {
            assert(digits =~= s@.drop_first());
        } else {
            assert(digits =~= s@);
        }
    }
    if start == n {
        return None;
    }
    let mut value: u32 = 0;
    let mut over = false;
    let mut i: usize = start;
    while i < n
        invariant
            n == s@.len(),
            start <= i <= n,
            digits == s@.skip(start as int),
            digits == (if s@.len() > 0 && s@[0] == '+' {
                s@.drop_first()
            } else {
                s@
            }),
            all_digits(digits.take(i - start)),
            over == (digits_value(digits.take(i - start)) > max),
            !over ==> value == digits_value(digits.take(i - start)),
        decreases n - i,
    {
        let c = s.get_char(i);
        if !('0' <= c && c <= '9') {
            assert(!all_digits(digits)) by {
                assert(digits[i - start] == c);
            }
            return None;
        }
        let ghost prev = digits.take(i - start);
        let ghost next = digits.take(i - start + 1);
        assert(next.drop_last() =~= prev);
        assert(next.last() == c);
        assert(all_digits(next)) by {
            assert forall|k: int| 0 <= k < next.len() implies is_digit(#[trigger] next[k]) by {
                if k < prev.len() {
                    assert(next[k] == prev[k]);
                }
            }
        }
        let d = (c as u32) - ('0' as u32);
        if !over {
            let widened: u64 = (value as u64) * 10 + (d as u64);
            if widened > (max as u64) {
                over = true;
            } else {
                value = widened as u32;
            }
        }
        i = i + 1;
    }
    assert(digits.take(n - start) =~= digits);
    if over {
        None
    } else {
        Some(value)
    }
}

proof fn lemma_first_ink(s: Seq<char>, from: int)
    requires
        0 <= from,
    ensures
        first_ink_from(s, from) < s.len() ==> !is_space(s[first_ink_from(s, from)]) && from
            <= first_ink_from(s, from),
    decreases s.len() - from,
{
    if from < s.len() && is_space(s[from]) {
        lemma_first_ink(s, from + 1);
    }
}

proof fn lemma_last_ink(s: Seq<char>, to: int)
    requires
        0 <= to <= s.len(),
    ensures
        0 <= last_ink_before(s, to) <= to,
    decreases to,
{
    if to > 0 && is_space(s[to - 1]) {
        lemma_last_ink(s, to - 1);
    }
}

/// Trimmed text that is not empty opens with a character that is not
/// whitespace.
pub proof fn lemma_trim_opens_with_ink(s: Seq<char>)
    ensures
        trim(s).len() > 0 ==> !is_space(trim(s)[0]),
        trim(Seq::<char>::empty()).len() == 0,
{
    lemma_first_ink(s, 0);
    lemma_last_ink(s, s.len() as int);
}

} // verus!
