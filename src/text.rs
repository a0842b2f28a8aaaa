use vstd::prelude::*;
use vstd::string::*;

verus! {

/// The characters with Unicode's `White_Space` property, which `char::is_whitespace`
/// and `str::trim` go by.
pub open spec fn is_white_space(c: char) -> bool {
    let u = c as u32;
    (0x9 <= u && u <= 0xd) || u == 0x20 || u == 0x85 || u == 0xa0 || u == 0x1680 || (0x2000 <= u
        && u <= 0x200a) || u == 0x2028 || u == 0x2029 || u == 0x202f || u == 0x205f || u == 0x3000
}

/// `s` without its leading white space.
pub open spec fn trim_start_spec(s: Seq<char>) -> Seq<char>
    decreases s.len(),
{
    if s.len() > 0 && is_white_space(s[0]) {
        trim_start_spec(s.drop_first())
    } else {
        s
    }
}

/// `s` without its trailing white space.
pub open spec fn trim_end_spec(s: Seq<char>) -> Seq<char>
    decreases s.len(),
{
    if s.len() > 0 && is_white_space(s.last()) {
        trim_end_spec(s.drop_last())
    } else {
        s
    }
}

/// `s` without white space at either end.
pub open spec fn trimmed(s: Seq<char>) -> Seq<char> {
    trim_end_spec(trim_start_spec(s))
}

proof fn lemma_trim_start_at(s: Seq<char>, k: int)
    requires
        0 <= k <= s.len(),
        forall|m: int| 0 <= m < k ==> is_white_space(#[trigger] s[m]),
        k == s.len() || !is_white_space(s[k]),
    ensures
        trim_start_spec(s) == s.subrange(k, s.len() as int),
    decreases k,
{
    if k == 0 {
        assert(s.subrange(0, s.len() as int) =~= s);
    } else {
        let t = s.drop_first();
        assert forall|m: int| 0 <= m < k - 1 implies is_white_space(#[trigger] t[m]) by {
            assert(t[m] == s[m + 1]);
        }
        lemma_trim_start_at(t, k - 1);
        assert(t.subrange(k - 1, t.len() as int) =~= s.subrange(k, s.len() as int));
    }
}

proof fn lemma_trim_end_at(s: Seq<char>, k: int)
    requires
        0 <= k <= s.len(),
        forall|m: int| k <= m < s.len() ==> is_white_space(#[trigger] s[m]),
        k == 0 || !is_white_space(s[k - 1]),
    ensures
        trim_end_spec(s) == s.subrange(0, k),
    decreases s.len() - k,
{
    if k == s.len() {
        assert(s.subrange(0, k) =~= s);
    } else {
        let t = s.drop_last();
        assert forall|m: int| k <= m < t.len() implies is_white_space(#[trigger] t[m]) by {
            assert(t[m] == s[m]);
        }
        lemma_trim_end_at(t, k);
        assert(t.subrange(0, k) =~= s.subrange(0, k));
    }
}

/// `s` with the white space at both ends taken off.
pub fn trim(s: &str) -> (r: String)
    ensures
        r@ == trimmed(s@),
{
    let n = s.unicode_len();
    let mut lo: usize = 0;
    while lo < n && is_white_space_char(s.get_char(lo))
        invariant
            n == s@.len(),
            lo <= n,
            forall|m: int| 0 <= m < lo ==> is_white_space(#[trigger] s@[m]),
        decreases n - lo,
    {
        lo = lo + 1;
    }
    let mut hi: usize = n;
    while hi > lo && is_white_space_char(s.get_char(hi - 1))
        invariant
            n == s@.len(),
            lo <= hi <= n,
            forall|m: int| hi <= m < n ==> is_white_space(#[trigger] s@[m]),
        decreases hi,
    {
        hi = hi - 1;
    }
    proof {
        lemma_trim_start_at(s@, lo as int);
        let t = s@.subrange(lo as int, n as int);
        assert forall|m: int| hi - lo <= m < t.len() implies is_white_space(#[trigger] t[m]) by {
            assert(t[m] == s@[m + lo]);
        }
        lemma_trim_end_at(t, hi - lo);
        assert(t.subrange(0, hi - lo) =~= s@.subrange(lo as int, hi as int));
    }
    s.substring_char(lo, hi).to_owned()
}

fn is_white_space_char(c: char) -> (r: bool)
    ensures
        r == is_white_space(c),
{
    let u = c as u32;
    (0x9 <= u && u <= 0xd) || u == 0x20 || u == 0x85 || u == 0xa0 || u == 0x1680 || (0x2000 <= u
        && u <= 0x200a) || u == 0x2028 || u == 0x2029 || u == 0x202f || u == 0x205f || u == 0x3000
}

pub open spec fn is_digit(c: char) -> bool {
    '0' as u32 <= c as u32 && c as u32 <= '9' as u32
}

pub open spec fn digit_value(c: char) -> int {
    c as u32 - '0' as u32
}

/// A non-empty run of ASCII digits.
pub open spec fn is_digit_run(s: Seq<char>) -> bool {
    s.len() > 0 && forall|i: int| 0 <= i < s.len() ==> is_digit(#[trigger] s[i])
}

/// The number that a run of decimal digits writes.
pub open spec fn decimal_value(s: Seq<char>) -> int
    decreases s.len(),
{
    if s.len() == 0 {
        0
    } else {
        decimal_value(s.drop_last()) * 10 + digit_value(s.last())
    }
}

/// The integer written by `s`: an optional `+` or `-`, then one or more decimal digits.
pub open spec fn signed_decimal(s: Seq<char>) -> Option<int> {
    if s.len() > 0 && (s[0] == '+' || s[0] == '-') {
        if is_digit_run(s.drop_first()) {
            if s[0] == '-' {
                Some(-decimal_value(s.drop_first()))
            } else {
                Some(decimal_value(s.drop_first()))
            }
        } else {
            None
        }
    } else if is_digit_run(s) {
        Some(decimal_value(s))
    } else {
        None
    }
}

/// What `s.parse::<i32>()` gives: the integer `s` writes, where it fits in an `i32`.
pub open spec fn parse_i32_spec(s: Seq<char>) -> Option<i32> {
    match signed_decimal(s) {
        Some(v) => if i32::MIN <= v <= i32::MAX {
            Some(v as i32)
        } else {
            None
        },
        None => None,
    }
}

/// Largest magnitude an `i32` can take (that of `i32::MIN`).
const MAGNITUDE_BOUND: i64 = 2147483648;

proof fn lemma_decimal_value_nonneg(s: Seq<char>)
    requires
        forall|i: int| 0 <= i < s.len() ==> is_digit(#[trigger] s[i]),
    ensures
        decimal_value(s) >= 0,
    decreases s.len(),
{
    if s.len() > 0 {
        let t = s.drop_last();
        assert forall|i: int| 0 <= i < t.len() implies is_digit(#[trigger] t[i]) by {
            assert(t[i] == s[i]);
        }
        lemma_decimal_value_nonneg(t);
        assert(is_digit(s[s.len() - 1]));
    }
}

/// Reads a signed decimal integer, as `str::parse::<i32>` does: `None` where `s` is
/// not an optional sign followed by digits, or writes a number out of range.
pub fn parse_i32(s: &str) -> (r: Option<i32>)
    ensures
        r == parse_i32_spec(s@),
{
    let n = s.unicode_len();
    if n == 0 {
        return None;
    }
    let first = s.get_char(0);
    let signed = first == '-' || first == '+';
    let start: usize = if signed { 1 } else { 0 };
    if start == n {
        return None;
    }
    let ghost digits = s@.subrange(start as int, n as int);
    proof {
        if signed {
            assert(digits =~= s@.drop_first());
        } else {
            assert(digits =~= s@);
        }
    }
    // the magnitude read so far, held at one past the bound once it is exceeded
    let mut acc: i64 = 0;
    let mut i: usize = start;
    while i < n
        invariant
            n == s@.len(),
            start <= i <= n,
            digits == s@.subrange(start as int, n as int),
            first == s@[0],
            signed == (first == '-' || first == '+'),
            signed ==> digits == s@.drop_first(),
            !signed ==> digits == s@,
            forall|m: int| start <= m < i ==> is_digit(#[trigger] s@[m]),
            acc == (if decimal_value(s@.subrange(start as int, i as int)) > MAGNITUDE_BOUND {
                MAGNITUDE_BOUND + 1
            } else {
                decimal_value(s@.subrange(start as int, i as int))
            }),
        decreases n - i,
    {
        let c = s.get_char(i);
        let u = c as u32;
        if u < '0' as u32 || u > '9' as u32 {
            proof {
                assert(digits[i - start] == c);
                assert(!is_digit(digits[i - start]));
            }
            return None;
        }
        let ghost prev = s@.subrange(start as int, i as int);
        let ghost next = s@.subrange(start as int, i + 1);
        proof {
            assert(next.drop_last() =~= prev);
            assert(next.last() == c);
            assert forall|m: int| 0 <= m < prev.len() implies is_digit(#[trigger] prev[m]) by {
                assert(prev[m] == s@[m + start]);
            }
            lemma_decimal_value_nonneg(prev);
        }
        let d: i64 = (u - '0' as u32) as i64;
        if acc > MAGNITUDE_BOUND {
            acc = MAGNITUDE_BOUND + 1;
        } else {
            acc = acc * 10 + d;
            if acc > MAGNITUDE_BOUND {
                acc = MAGNITUDE_BOUND + 1;
            }
        }
        i = i + 1;
    }
    proof {
        assert(s@.subrange(start as int, n as int) == digits);
        assert forall|m: int| 0 <= m < digits.len() implies is_digit(#[trigger] digits[m]) by {
            assert(digits[m] == s@[m + start]);
        }
        lemma_decimal_value_nonneg(digits);
    }
    if first == '-' {
        if acc <= MAGNITUDE_BOUND {
            Some((0 - acc) as i32)
        } else {
            None
        }
    } else if acc <= 2147483647 {
        Some(acc as i32)
    } else {
        None
    }
}

/// Whether `c` occurs in `s`.
pub fn contains_char(s: &str, c: char) -> (r: bool)
    ensures
        r == s@.contains(c),
{
    let n = s.unicode_len();
    let mut i: usize = 0;
    while i < n
        invariant
            n == s@.len(),
            i <= n,
            forall|k: int| 0 <= k < i ==> s@[k] != c,
        decreases n - i,
    {
        if s.get_char(i) == c {
            return true;
        }
        i = i + 1;
    }
    false
}

/// Whether `a` and `b` hold the same characters.
pub fn same_text(a: &str, b: &str) -> (r: bool)
    ensures
        r == (a@ == b@),
{
    let n = a.unicode_len();
    if n != b.unicode_len() {
        return false;
    }
    let mut i: usize = 0;
    while i < n
        invariant
            n == a@.len() == b@.len(),
            i <= n,
            forall|k: int| 0 <= k < i ==> a@[k] == b@[k],
        decreases n - i,
    {
        if a.get_char(i) != b.get_char(i) {
            return false;
        }
        i = i + 1;
    }
    assert(a@ =~= b@);
    true
}

/// `pattern` stands in `s` at position `i`.
pub open spec fn occurs_at(s: Seq<char>, pattern: Seq<char>, i: int) -> bool {
    0 <= i && i + pattern.len() <= s.len() && s.subrange(i, i + pattern.len()) == pattern
}

/// Where `pattern` first stands in `s`, counted in characters; `None` if nowhere.
pub fn find(s: &str, pattern: &str) -> (r: Option<usize>)
    ensures
        match r {
            Some(i) => occurs_at(s@, pattern@, i as int) && forall|j: int|
                0 <= j < i ==> !occurs_at(s@, pattern@, j),
            None => forall|j: int| !occurs_at(s@, pattern@, j),
        },
{
    let n = s.unicode_len();
    let m = pattern.unicode_len();
    if m > n {
        return None;
    }
    let mut i: usize = 0;
    while i <= n - m
        invariant
            n == s@.len(),
            m == pattern@.len(),
            m <= n,
            i <= n - m + 1,
            forall|j: int| 0 <= j < i ==> !occurs_at(s@, pattern@, j),
        decreases n - m + 1 - i,
    {
        let mut k: usize = 0;
        while k < m && s.get_char(i + k) == pattern.get_char(k)
            invariant
                n == s@.len(),
                m == pattern@.len(),
                i + m <= n,
                k <= m,
                forall|t: int| 0 <= t < k ==> s@[i + t] == pattern@[t],
            decreases m - k,
        {
            k = k + 1;
        }
        if k == m {
            assert(s@.subrange(i as int, i + m) =~= pattern@);
            return Some(i);
        }
        assert(s@.subrange(i as int, i + m)[k as int] != pattern@[k as int]);
        i = i + 1;
    }
    None
}

/// The decimal digit for a value below ten.
pub open spec fn digit_char(d: int) -> char {
    if d == 0 {
        '0'
    } else if d == 1 {
        '1'
    } else if d == 2 {
        '2'
    } else if d == 3 {
        '3'
    } else if d == 4 {
        '4'
    } else if d == 5 {
        '5'
    } else if d == 6 {
        '6'
    } else if d == 7 {
        '7'
    } else if d == 8 {
        '8'
    } else {
        '9'
    }
}

/// The decimal digits of `n`, with no leading zero (`0` alone for zero).
pub open spec fn decimal_digits(n: nat) -> Seq<char>
    decreases n,
{
    if n < 10 {
        seq![digit_char(n as int)]
    } else {
        decimal_digits(n / 10).push(digit_char(n as int % 10))
    }
}

/// How `v` is written in decimal, as `Display` writes an integer: `-` before the
/// digits of a negative value.
pub open spec fn int_text(v: int) -> Seq<char> {
    if v < 0 {
        seq!['-'] + decimal_digits((-v) as nat)
    } else {
        decimal_digits(v as nat)
    }
}

proof fn lemma_digit_char(d: int)
    requires
        0 <= d < 10,
    ensures
        is_digit(digit_char(d)),
        digit_value(digit_char(d)) == d,
{
    if d == 0 {
    } else if d == 1 {
    } else if d == 2 {
    } else if d == 3 {
    } else if d == 4 {
    } else if d == 5 {
    } else if d == 6 {
    } else if d == 7 {
    } else if d == 8 {
    } else {
    }
}

proof fn lemma_decimal_digits(n: nat)
    ensures
        is_digit_run(decimal_digits(n)),
        decimal_value(decimal_digits(n)) == n,
    decreases n,
{
    let s = decimal_digits(n);
    lemma_digit_char(n as int % 10);
    if n < 10 {
        assert(s.drop_last() =~= Seq::<char>::empty());
        assert(s.last() == digit_char(n as int));
        assert(decimal_value(s.drop_last()) == 0);
        assert(decimal_value(s) == decimal_value(s.drop_last()) * 10 + digit_value(s.last()));
    } else {
        lemma_decimal_digits(n / 10);
        let t = decimal_digits(n / 10);
        assert(s.drop_last() =~= t);
        assert(s.last() == digit_char(n as int % 10));
        assert(n == (n / 10) * 10 + n % 10);
        assert(decimal_value(s) == decimal_value(t) * 10 + digit_value(s.last()));
        assert forall|i: int| 0 <= i < s.len() implies is_digit(#[trigger] s[i]) by {
            if i < t.len() {
                assert(s[i] == t[i]);
            }
        }
    }
}

/// Reading back what writing an `i32` in decimal gives returns that `i32`.
pub proof fn lemma_parse_int_text(v: i32)
    ensures
        parse_i32_spec(int_text(v as int)) == Some(v),
{
    let s = int_text(v as int);
    if v < 0 {
        let m = (-(v as int)) as nat;
        lemma_decimal_digits(m);
        assert(s.drop_first() =~= decimal_digits(m));
    } else {
        lemma_decimal_digits(v as nat);
        let d = decimal_digits(v as nat);
        assert(is_digit(d[0]));
    }
}

/// Each character of an integer written in decimal is `-` or a digit, never a comma.
pub(crate) proof fn lemma_int_text_digits(v: int, k: int)
    requires
        0 <= k < int_text(v).len(),
    ensures
        int_text(v)[k] != ',',
{
    if v < 0 {
        let m = (-v) as nat;
        lemma_decimal_digits(m);
        if k > 0 {
            assert(int_text(v)[k] == decimal_digits(m)[k - 1]);
            assert(is_digit(decimal_digits(m)[k - 1]));
        }
    } else {
        lemma_decimal_digits(v as nat);
        assert(is_digit(int_text(v)[k]));
    }
}

} // verus!
