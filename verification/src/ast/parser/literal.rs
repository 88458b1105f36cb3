use vstd::prelude::*;
use vstd::string::StrSliceExecFns;

verus! {

/// The characters of `s` without its underscores.
pub open spec fn strip_underscores(s: Seq<char>) -> Seq<char>
    decreases s.len(),
{
    if s.len() == 0 {
        s
    } else if s.last() == '_' {
        strip_underscores(s.drop_last())
    } else {
        strip_underscores(s.drop_last()).push(s.last())
    }
}

/// Every character is an ASCII digit.
pub open spec fn all_digits(d: Seq<char>) -> bool {
    forall|i: int| 0 <= i < d.len() ==> '0' <= #[trigger] d[i] <= '9'
}

/// The number that the ASCII digits `d` write in base ten.
pub open spec fn decimal_value(d: Seq<char>) -> int
    decreases d.len(),
{
    if d.len() == 0 {
        0
    } else {
        decimal_value(d.drop_last()) * 10 + (d.last() as int - '0' as int)
    }
}

/// The value of `t` read as an `i64` the way Rust's `str::parse::<i64>` reads it: an optional
/// `+` or `-`, then one or more ASCII digits, with a value in range; `None` for any other text.
pub open spec fn i64_text_value(t: Seq<char>) -> Option<i64> {
    let signed = t.len() > 0 && (t[0] == '+' || t[0] == '-');
    let d = if signed {
        t.skip(1)
    } else {
        t
    };
    let v = if signed && t[0] == '-' {
        -decimal_value(d)
    } else {
        decimal_value(d)
    };
    if d.len() > 0 && all_digits(d) && i64::MIN <= v <= i64::MAX {
        Some(v as i64)
    } else {
        None
    }
}

proof fn lemma_decimal_nonneg(d: Seq<char>)
    requires
        all_digits(d),
    ensures
        decimal_value(d) >= 0,
    decreases d.len(),
{
    if d.len() > 0 {
        lemma_decimal_nonneg(d.drop_last());
    }
}

/// A longer run of digits has a value no smaller.
proof fn lemma_decimal_mono(d: Seq<char>, i: int, j: int)
    requires
        all_digits(d),
        0 <= i <= j <= d.len(),
    ensures
        decimal_value(d.take(i)) <= decimal_value(d.take(j)),
    decreases j - i,
{
    if i < j {
        lemma_decimal_mono(d, i, j - 1);
        assert(d.take(j).drop_last() =~= d.take(j - 1));
        lemma_decimal_nonneg(d.take(j - 1));
    }
}

/// The characters of `s` without its underscores.
pub fn strip_underscores_exec(s: &str) -> (r: Vec<char>)
    ensures
        r@ == strip_underscores(s@),
{
    let mut out: Vec<char> = Vec::new();
    let mut i: usize = 0;
    let n = s.unicode_len();
    while i < n
        invariant
            n == s@.len(),
            i <= n,
            out@ == strip_underscores(s@.take(i as int)),
        decreases n - i,
    {
        let c = s.get_char(i);
        assert(s@.take(i + 1).drop_last() =~= s@.take(i as int));
        if c != '_' {
            out.push(c);
        }
        i = i + 1;
    }
    assert(s@.take(n as int) =~= s@);
    out
}

/// Reads `t` as an `i64` the way `str::parse::<i64>` does.
pub fn parse_i64(t: &Vec<char>) -> (r: Option<i64>)
    ensures
        r == i64_text_value(t@),
{
    let n = t.len();
    if n == 0 {
        return None;
    }
    let negative = t[0] == '-';
    let start: usize = if t[0] == '+' || t[0] == '-' {
        1
    } else {
        0
    };
    let ghost d = t@.skip(start as int);
    proof {
        if start == 0 {
            assert(d =~= t@);
        }
    }
    if start == n {
        return None;
    }
    let mut v: i64 = 0;
    let mut i: usize = start;
    while i < n
        invariant
            n == t@.len(),
            start <= i <= n,
            start < n,
            start == 0 || start == 1,
            (start == 1) == (t@[0] == '+' || t@[0] == '-'),
            negative == (t@[0] == '-'),
            d == t@.skip(start as int),
            start == 0 ==> d == t@,
            all_digits(d.take(i - start)),
            negative ==> v == -decimal_value(d.take(i - start)),
            !negative ==> v == decimal_value(d.take(i - start)),
        decreases n - i,
    {
        let c = t[i];
        if c < '0' || c > '9' {
            proof {
                assert(d[i - start] == c);
                assert(!all_digits(d));
            }
            return None;
        }
        let digit: i64 = if c == '0' { 0 } else if c == '1' { 1 } else if c == '2' { 2 } else if c == '3' { 3 } else if c == '4' { 4 } else if c == '5' { 5 } else if c == '6' { 6 } else if c == '7' { 7 } else if c == '8' { 8 } else { 9 };
        assert(digit == c as int - '0' as int);
        proof {
            assert(d.take(i - start + 1).drop_last() =~= d.take(i - start));
            assert(d.take(i - start + 1).last() == c);
            assert(all_digits(d.take(i - start + 1)));
        }
        let next = if negative {
            match v.checked_mul(10) {
                Some(m) => m.checked_sub(digit),
                None => None,
            }
        } else {
            match v.checked_mul(10) {
                Some(m) => m.checked_add(digit),
                None => None,
            }
        };
        match next {
            Some(w) => {
                v = w;
            },
            None => {
                proof {
                    let k = i - start + 1;
                    let prev = decimal_value(d.take(k - 1));
                    let val = decimal_value(d.take(k));
                    assert(val == prev * 10 + digit);
                    lemma_decimal_nonneg(d.take(k - 1));
                    if negative {
                        assert(-val < i64::MIN);
                    } else {
                        assert(val > i64::MAX);
                    }
                    if all_digits(d) {
                        lemma_decimal_mono(d, k, d.len() as int);
                        assert(d.take(d.len() as int) =~= d);
                    }
                }
                return None;
            },
        }
        i = i + 1;
    }
    proof {
        assert(d.take(n - start) =~= d);
    }
    Some(v)
}

/// Whether `c` is an ASCII digit.
pub open spec fn is_digit(c: char) -> bool {
    '0' <= c <= '9'
}

/// The index just after the ASCII digits that start at `i`.
pub open spec fn digits_end(t: Seq<char>, i: nat) -> nat
    decreases t.len() - i,
{
    if i < t.len() && is_digit(t[i as int]) {
        digits_end(t, i + 1)
    } else {
        i
    }
}

/// The code of `c` in lower case, for ASCII letters.
pub open spec fn lower_code(c: char) -> u32 {
    if 'A' <= c <= 'Z' {
        ((c as u32) + 32) as u32
    } else {
        c as u32
    }
}

/// `t`, in lower case, is `w`.
pub open spec fn lower_is(t: Seq<char>, w: Seq<char>) -> bool {
    t.len() == w.len() && forall|i: int| 0 <= i < t.len() ==> lower_code(#[trigger] t[i]) == w[i] as u32
}

/// Whether `t` reads as an `f64` the way Rust's `str::parse::<f64>` reads it: an optional sign,
/// then `inf`, `infinity` or `nan` in any case, or digits with at most one `.` (and at least one
/// digit) followed by an optional exponent (`e` or `E`, an optional sign, one or more digits).
pub open spec fn f64_text_ok(t: Seq<char>) -> bool {
    let i: nat = if t.len() > 0 && (t[0] == '+' || t[0] == '-') {
        1
    } else {
        0
    };
    let rest = t.skip(i as int);
    let a = digits_end(t, i);
    let (b, frac) = if a < t.len() && t[a as int] == '.' {
        (digits_end(t, a + 1), (digits_end(t, a + 1) - (a + 1)) as nat)
    } else {
        (a, 0nat)
    };
    let mantissa_ok = (a - i) + frac > 0;
    let exp_ok = if b == t.len() {
        true
    } else if t[b as int] == 'e' || t[b as int] == 'E' {
        let s: nat = if b + 1 < t.len() && (t[b + 1int] == '+' || t[b + 1int] == '-') {
            b + 2
        } else {
            b + 1
        };
        digits_end(t, s) == t.len() && t.len() > s
    } else {
        false
    };
    ||| lower_is(rest, "inf"@)
    ||| lower_is(rest, "infinity"@)
    ||| lower_is(rest, "nan"@)
    ||| mantissa_ok && exp_ok
}

fn scan_digits(t: &Vec<char>, i: usize) -> (r: usize)
    requires
        i <= t@.len(),
    ensures
        r == digits_end(t@, i as nat),
        i <= r <= t@.len(),
    decreases t@.len() - i,
{
    if i < t.len() && t[i] >= '0' && t[i] <= '9' {
        scan_digits(t, i + 1)
    } else {
        i
    }
}

fn lower_code_exec(c: char) -> (r: u32)
    ensures
        r == lower_code(c),
{
    if c >= 'A' && c <= 'Z' {
        (c as u32) + 32
    } else {
        c as u32
    }
}

fn lower_equals(t: &Vec<char>, i: usize, w: &str) -> (r: bool)
    requires
        i <= t@.len(),
    ensures
        r == lower_is(t@.skip(i as int), w@),
{
    let n = w.unicode_len();
    let tl = t.len();
    if tl - i != n {
        return false;
    }
    let mut k: usize = 0;
    while k < n
        invariant
            tl == t@.len(),
            n == w@.len(),
            i <= t@.len(),
            t@.len() - i == n,
            k <= n,
            forall|j: int| 0 <= j < k ==> lower_code(#[trigger] t@.skip(i as int)[j]) == w@[j] as u32,
        decreases n - k,
    {
        assert(i + k < tl);
        if lower_code_exec(t[i + k]) != w.get_char(k) as u32 {
            assert(t@.skip(i as int)[k as int] == t@[i + k]);
            return false;
        }
        assert(t@.skip(i as int)[k as int] == t@[i + k]);
        k = k + 1;
    }
    true
}

/// Whether `t` reads as an `f64` the way `str::parse::<f64>` does.
pub fn is_f64_text(t: &Vec<char>) -> (r: bool)
    ensures
        r == f64_text_ok(t@),
{
    let n = t.len();
    let i: usize = if n > 0 && (t[0] == '+' || t[0] == '-') {
        1
    } else {
        0
    };
    proof {
        reveal_strlit("inf");
        reveal_strlit("infinity");
        reveal_strlit("nan");
    }
    if lower_equals(t, i, "inf") || lower_equals(t, i, "infinity") || lower_equals(t, i, "nan") {
        return true;
    }
    let a = scan_digits(t, i);
    let mut b = a;
    let mut frac: usize = 0;
    if a < n && t[a] == '.' {
        b = scan_digits(t, a + 1);
        frac = b - (a + 1);
    }
    let mantissa_ok = (a - i) + frac > 0;
    let exp_ok = if b == n {
        true
    } else if t[b] == 'e' || t[b] == 'E' {
        let s: usize = if b + 1 < n && (t[b + 1] == '+' || t[b + 1] == '-') {
            b + 2
        } else {
            b + 1
        };
        scan_digits(t, s) == n && n > s
    } else {
        false
    };
    mantissa_ok && exp_ok
}

} // verus!
