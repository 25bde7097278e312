//! Verified text parsing for the query surface: fixed-point decimal
//! coordinates and clock times, both read from plain strings.

use vstd::prelude::*;
use vstd::string::StrSliceExecFns;

verus! {

/// Digits an integer part may carry before it is rejected; it keeps every
/// parsed value far inside the fixed-point range.
pub const MAX_INT_DIGITS: usize = 12;

/// A decimal digit.
pub open spec fn is_digit(c: char) -> bool {
    48 <= c as int <= 57
}

/// The value of a decimal digit.
pub open spec fn digit_val(c: char) -> int {
    c as int - 48
}

/// Every character is a decimal digit.
pub open spec fn all_digits(s: Seq<char>) -> bool {
    forall|i: int| 0 <= i < s.len() ==> is_digit(#[trigger] s[i])
}

/// The value of a digit string read most significant first.
pub open spec fn int_val(s: Seq<char>) -> int
    decreases s.len(),
{
    if s.len() == 0 {
        0
    } else {
        int_val(s.drop_last()) * 10 + digit_val(s.last())
    }
}

/// The value of a fraction's digit string at a given leading scale: the
/// first digit weighs `scale`, the next a tenth of it, and digits beyond
/// the scale's resolution weigh nothing.
pub open spec fn frac_val(s: Seq<char>, scale: int) -> int
    decreases s.len(),
{
    if s.len() == 0 || scale <= 0 {
        0
    } else {
        digit_val(s[0]) * scale + frac_val(s.drop_first(), scale / 10)
    }
}

/// Ten to the `k`.
pub open spec fn pow10(k: nat) -> int
    decreases k,
{
    if k == 0 {
        1
    } else {
        10 * pow10((k - 1) as nat)
    }
}

/// Powers of ten grow with the exponent.
pub proof fn lemma_pow10_le(a: nat, b: nat)
    requires
        a <= b,
    ensures
        pow10(a) <= pow10(b),
        0 < pow10(a),
    decreases b,
{
    if a < b {
        lemma_pow10_le(a, (b - 1) as nat);
        assert(pow10(b) == 10 * pow10((b - 1) as nat));
    } else if b > 0 {
        lemma_pow10_le((a - 1) as nat, (b - 1) as nat);
    }
}

/// The position of the first occurrence of `c`, if any.
pub open spec fn first_index_of(s: Seq<char>, c: char) -> Option<int>
    decreases s.len(),
{
    if s.len() == 0 {
        None
    } else if s[0] == c {
        Some(0int)
    } else {
        match first_index_of(s.drop_first(), c) {
            Some(i) => Some(i + 1),
            None => None,
        }
    }
}

/// What `first_index_of` finds: the first position holding `c`, or a
/// proof that none does.
pub proof fn lemma_first_index_of(s: Seq<char>, c: char)
    ensures
        match first_index_of(s, c) {
            Some(i) => 0 <= i < s.len() && s[i] == c && forall|j: int| 0 <= j < i ==> s[j] != c,
            None => forall|j: int| 0 <= j < s.len() ==> s[j] != c,
        },
    decreases s.len(),
{
    if s.len() > 0 && s[0] != c {
        lemma_first_index_of(s.drop_first(), c);
        match first_index_of(s.drop_first(), c) {
            Some(i) => {
                assert(s.drop_first()[i] == s[i + 1]);
                assert forall|j: int| 0 <= j < i + 1 implies s[j] != c by {
                    if j > 0 {
                        assert(s.drop_first()[j - 1] == s[j]);
                    }
                }
            },
            None => {
                assert forall|j: int| 0 <= j < s.len() implies s[j] != c by {
                    if j > 0 {
                        assert(s.drop_first()[j - 1] == s[j]);
                    }
                }
            },
        }
    }
}

/// Finds the first occurrence of `c` in a string.
pub fn find_first(s: &str, c: char) -> (r: Option<usize>)
    ensures
        match r {
            Some(i) => first_index_of(s@, c) == Some(i as int),
            None => first_index_of(s@, c) is None,
        },
{
    let n = s.unicode_len();
    let mut i: usize = 0;
    while i < n
        invariant
            i <= n,
            n == s@.len(),
            forall|j: int| 0 <= j < i ==> s@[j] != c,
        decreases n - i,
    {
        if s.get_char(i) == c {
            proof {
                lemma_first_index_of(s@, c);
                if first_index_of(s@, c) is None {
                    assert(false);
                }
                let k = first_index_of(s@, c)->0;
                assert(s@[k] == c);
                assert(k == i as int);
            }
            return Some(i);
        }
        i = i + 1;
    }
    proof {
        lemma_first_index_of(s@, c);
        if first_index_of(s@, c) is Some {
            let k = first_index_of(s@, c)->0;
            assert(s@[k] == c);
            assert(false);
        }
    }
    None
}

/// An unsigned decimal body: one to twelve integer digits, optionally
/// followed by a dot and at least one fraction digit.
pub open spec fn valid_unsigned(b: Seq<char>) -> bool {
    match first_index_of(b, '.') {
        None => 1 <= b.len() <= MAX_INT_DIGITS && all_digits(b),
        Some(d) => 1 <= d <= MAX_INT_DIGITS && all_digits(b.take(d)) && d + 1 < b.len()
            && all_digits(b.skip(d + 1)),
    }
}

/// The value of an unsigned decimal body in millionths: the integer part
/// scaled up, plus the fraction read to six places.
pub open spec fn unsigned_micro(b: Seq<char>) -> int {
    match first_index_of(b, '.') {
        None => int_val(b) * 1000000,
        Some(d) => int_val(b.take(d)) * 1000000 + frac_val(b.skip(d + 1), 100000),
    }
}

/// A signed decimal string: an optional leading minus before a valid
/// body.
pub open spec fn valid_decimal(s: Seq<char>) -> bool {
    if s.len() > 0 && s[0] == '-' {
        valid_unsigned(s.drop_first())
    } else {
        valid_unsigned(s)
    }
}

/// The value of a signed decimal string in millionths, truncated towards
/// zero after six fraction places.
pub open spec fn decimal_micro(s: Seq<char>) -> int {
    if s.len() > 0 && s[0] == '-' {
        -unsigned_micro(s.drop_first())
    } else {
        unsigned_micro(s)
    }
}

/// Reads the digits of `b` between `from` and `to` as an integer.
fn parse_digits(b: &str, from: usize, to: usize) -> (r: Option<i64>)
    requires
        from <= to <= b@.len(),
        to - from <= MAX_INT_DIGITS,
    ensures
        match r {
            Some(v) => all_digits(b@.subrange(from as int, to as int)) && v as int == int_val(
                b@.subrange(from as int, to as int),
            ) && 0 <= v < 1000000000000,
            None => !all_digits(b@.subrange(from as int, to as int)),
        },
{
    proof {
        lemma_pow10_le(0, 12);
        assert(pow10(12) == 1000000000000) by {
            reveal_with_fuel(pow10, 13);
        }
    }
    let mut value: i64 = 0;
    let mut k = from;
    while k < to
        invariant
            from <= k <= to <= b@.len(),
            to - from <= MAX_INT_DIGITS,
            all_digits(b@.subrange(from as int, k as int)),
            value as int == int_val(b@.subrange(from as int, k as int)),
            0 <= value,
            (value as int) < pow10((k - from) as nat),
            pow10(12) == 1000000000000,
        decreases to - k,
    {
        let c = b.get_char(k);
        let cu = c as u32;
        if cu < 48 || cu > 57 {
            proof {
                assert(b@.subrange(from as int, to as int)[k - from] == b@[k as int]);
                assert(!is_digit(b@[k as int]));
            }
            return None;
        }
        let d = (cu - 48) as i64;
        proof {
            let prefix = b@.subrange(from as int, k as int);
            let next = b@.subrange(from as int, k as int + 1);
            assert(next.drop_last() =~= prefix);
            assert(next.last() == b@[k as int]);
            lemma_pow10_le((k - from) as nat, 12);
            assert(value * 10 + d < pow10((k - from + 1) as nat)) by (nonlinear_arith)
                requires
                    0 <= value < pow10((k - from) as nat),
                    0 <= d <= 9,
                    pow10((k - from + 1) as nat) == 10 * pow10((k - from) as nat),
            ;
            lemma_pow10_le((k - from + 1) as nat, 12);
        }
        value = value * 10 + d;
        k = k + 1;
    }
    proof {
        lemma_pow10_le((to - from) as nat, 12);
    }
    Some(value)
}

/// Reads the fraction digits of `b` from `from` to its end, weighing the
/// first six places down from a tenth; digits beyond the sixth must still
/// be digits but weigh nothing.
fn parse_fraction(b: &str, from: usize) -> (r: Option<i64>)
    requires
        from <= b@.len(),
    ensures
        match r {
            Some(v) => all_digits(b@.skip(from as int)) && v as int == frac_val(
                b@.skip(from as int),
                100000,
            ) && 0 <= v < 1000000,
            None => !all_digits(b@.skip(from as int)),
        },
{
    let ghost f = b@.skip(from as int);
    proof {
        assert(f.skip(0) =~= f);
        assert(f.take(0) =~= Seq::<char>::empty());
    }
    let n = b.unicode_len();
    let mut acc: i64 = 0;
    let mut scale: i64 = 100000;
    let mut k = from;
    while k < n
        invariant
            from <= k <= n,
            n == b@.len(),
            f == b@.skip(from as int),
            all_digits(f.take(k - from)),
            0 <= acc,
            0 <= scale <= 100000,
            acc + 10 * scale <= 1000000,
            scale == 0 ==> acc <= 999999,
            acc as int + frac_val(f.skip(k - from), scale as int) == frac_val(f, 100000),
        decreases n - k,
    {
        let c = b.get_char(k);
        let cu = c as u32;
        if cu < 48 || cu > 57 {
            proof {
                assert(f[k - from] == b@[k as int]);
                assert(!is_digit(f[k - from]));
            }
            return None;
        }
        let d = (cu - 48) as i64;
        proof {
            assert(f.skip(k - from)[0] == f[k - from]);
            assert(f[k - from] == b@[k as int]);
            assert(f.skip(k - from).drop_first() =~= f.skip(k - from + 1));
            assert(f.take(k - from + 1) =~= f.take(k - from).push(f[k - from]));
            assert(acc + d * scale + 10 * (scale / 10) <= 1000000) by (nonlinear_arith)
                requires
                    0 <= acc,
                    0 <= d <= 9,
                    0 <= scale,
                    acc + 10 * scale <= 1000000,
            ;
            assert(scale / 10 == 0 ==> acc + d * scale <= 999999) by (nonlinear_arith)
                requires
                    0 <= acc,
                    0 <= d <= 9,
                    0 <= scale,
                    acc + 10 * scale <= 1000000,
                    scale == 0 ==> acc <= 999999,
            ;
            if scale == 0 {
                assert(frac_val(f.skip(k - from), 0) == 0);
                assert(frac_val(f.skip(k - from + 1), 0) == 0);
            } else {
                assert(f.skip(k - from).len() > 0);
                assert(frac_val(f.skip(k - from), scale as int) == digit_val(f[k - from]) * (
                scale as int) + frac_val(f.skip(k - from + 1), (scale as int) / 10));
                assert(d == digit_val(f[k - from]));
            }
            assert(d * scale >= 0) by (nonlinear_arith)
                requires
                    0 <= d,
                    0 <= scale,
            ;
            assert(d * scale <= 9 * 100000) by (nonlinear_arith)
                requires
                    0 <= d <= 9,
                    0 <= scale <= 100000,
            ;
        }
        acc = acc + d * scale;
        scale = scale / 10;
        k = k + 1;
    }
    proof {
        assert(f.take(n - from) =~= f);
        assert(f.skip(n - from) =~= Seq::<char>::empty());
    }
    Some(acc)
}

/// Reads a signed fixed-point decimal with up to twelve integer digits,
/// truncating the fraction after six places: the millionths value of the
/// string, or nothing when the string is not a decimal of that shape.
pub fn parse_decimal_micro(s: &str) -> (r: Option<i64>)
    ensures
        match r {
            Some(v) => valid_decimal(s@) && v as int == decimal_micro(s@),
            None => !valid_decimal(s@),
        },
{
    let n = s.unicode_len();
    if n == 0 {
        proof {
            assert(first_index_of(s@, '.') is None);
        }
        return None;
    }
    let neg = s.get_char(0) == '-';
    let body = if neg {
        s.substring_char(1, n)
    } else {
        s
    };
    proof {
        if neg {
            assert(body@ =~= s@.drop_first());
        }
    }
    match parse_unsigned_micro(body) {
        Some(v) => {
            if neg {
                Some(-v)
            } else {
                Some(v)
            }
        },
        None => None,
    }
}

/// Reads an unsigned fixed-point decimal body.
fn parse_unsigned_micro(b: &str) -> (r: Option<i64>)
    ensures
        match r {
            Some(v) => valid_unsigned(b@) && v as int == unsigned_micro(b@) && 0 <= v
                < 1000000000000000000,
            None => !valid_unsigned(b@),
        },
{
    let n = b.unicode_len();
    let dot = find_first(b, '.');
    proof {
        lemma_first_index_of(b@, '.');
    }
    let int_end = match dot {
        Some(d) => d,
        None => n,
    };
    if int_end < 1 || int_end > MAX_INT_DIGITS {
        return None;
    }
    let int_part = match parse_digits(b, 0, int_end) {
        Some(v) => v,
        None => {
            return None;
        },
    };
    let frac_part: i64 = match dot {
        Some(d) => {
            if d + 1 >= n {
                return None;
            }
            match parse_fraction(b, d + 1) {
                Some(v) => v,
                None => {
                    return None;
                },
            }
        },
        None => 0,
    };
    proof {
        match first_index_of(b@, '.') {
            None => {
                assert(b@.subrange(0, n as int) =~= b@);
            },
            Some(d) => {
                assert(b@.subrange(0, d) =~= b@.take(d));
            },
        }
        assert(int_part * 1000000 <= 999999999999 * 1000000) by (nonlinear_arith)
            requires
                0 <= int_part < 1000000000000,
        ;
        assert(int_part * 1000000 >= 0) by (nonlinear_arith)
            requires
                0 <= int_part,
        ;
    }
    Some(int_part * 1000000 + frac_part)
}

/// A clock time of the day: one or two hour digits under twenty-four, a
/// colon, and one or two minute digits under sixty.
pub open spec fn valid_time_string(s: Seq<char>) -> bool {
    match first_index_of(s, ':') {
        None => false,
        Some(c) => {
            &&& 1 <= c <= 2
            &&& all_digits(s.take(c))
            &&& 1 <= s.len() - c - 1 <= 2
            &&& all_digits(s.skip(c + 1))
            &&& int_val(s.take(c)) <= 23
            &&& int_val(s.skip(c + 1)) <= 59
        },
    }
}

/// The minute of the day a clock-time string denotes.
pub open spec fn time_string_minutes(s: Seq<char>) -> int {
    let c = first_index_of(s, ':')->0;
    int_val(s.take(c)) * 60 + int_val(s.skip(c + 1))
}

/// Reads an `HH:MM` clock time as the minute of the day, under 1440, or
/// nothing when the string is not a clock time.
pub fn parse_time_of_day(s: &str) -> (r: Option<u16>)
    ensures
        match r {
            Some(m) => valid_time_string(s@) && m as int == time_string_minutes(s@) && m < 1440,
            None => !valid_time_string(s@),
        },
{
    let n = s.unicode_len();
    let colon = match find_first(s, ':') {
        Some(c) => c,
        None => {
            return None;
        },
    };
    proof {
        lemma_first_index_of(s@, ':');
    }
    if colon < 1 || colon > 2 {
        return None;
    }
    if n - colon - 1 < 1 || n - colon - 1 > 2 {
        return None;
    }
    let hours = match parse_digits(s, 0, colon) {
        Some(v) => v,
        None => {
            proof {
                assert(s@.subrange(0, colon as int) =~= s@.take(colon as int));
            }
            return None;
        },
    };
    let minutes = match parse_digits(s, colon + 1, n) {
        Some(v) => v,
        None => {
            proof {
                assert(s@.subrange(colon as int + 1, n as int) =~= s@.skip(colon as int + 1));
            }
            return None;
        },
    };
    proof {
        assert(s@.subrange(0, colon as int) =~= s@.take(colon as int));
        assert(s@.subrange(colon as int + 1, n as int) =~= s@.skip(colon as int + 1));
    }
    if hours > 23 || minutes > 59 {
        return None;
    }
    Some((hours * 60 + minutes) as u16)
}

} // verus!
