//! Reading numbers and words out of text, byte by byte: the grammars of std's
//! `FromStr` for unsigned and signed integers and for floating-point numbers, and
//! the splitting of a text at Unicode white space.
use vstd::prelude::*;

verus! {

pub open spec fn is_digit(b: u8) -> bool {
    48 <= b <= 57
}

pub open spec fn all_digits(s: Seq<u8>) -> bool {
    forall|i: int| 0 <= i < s.len() ==> is_digit(#[trigger] s[i])
}

/// The value of a string of decimal digits.
pub open spec fn decimal_value(s: Seq<u8>) -> nat
    decreases s.len(),
{
    if s.len() == 0 {
        0
    } else {
        decimal_value(s.drop_last()) * 10 + (s.last() - 48) as nat
    }
}

/// `s` without one leading `+` (the sign that every integer type accepts).
pub open spec fn without_plus(s: Seq<u8>) -> Seq<u8> {
    if s.len() > 0 && s[0] == 43 {
        s.drop_first()
    } else {
        s
    }
}

/// An unsigned integer no larger than `max`, as std's `FromStr` reads it: an
/// optional `+`, then at least one decimal digit, nothing else.
pub open spec fn parse_unsigned(s: Seq<u8>, max: int) -> Option<int> {
    let digits = without_plus(s);
    if digits.len() == 0 || !all_digits(digits) || decimal_value(digits) > max {
        None
    } else {
        Some(decimal_value(digits) as int)
    }
}

/// An `i64` as std's `FromStr` reads it: an optional `+` or `-`, then at least one
/// decimal digit, and a value in range.
pub open spec fn parse_i64(s: Seq<u8>) -> Option<int> {
    let negative = s.len() > 0 && s[0] == 45;
    let digits = if s.len() > 0 && (s[0] == 43 || s[0] == 45) {
        s.drop_first()
    } else {
        s
    };
    let magnitude = decimal_value(digits) as int;
    let value = if negative {
        -magnitude
    } else {
        magnitude
    };
    if digits.len() == 0 || !all_digits(digits) || value < i64::MIN || value > i64::MAX {
        None
    } else {
        Some(value)
    }
}

/// ASCII letters folded to lower case.
pub open spec fn ascii_lower(b: u8) -> u8 {
    if 65 <= b <= 90 {
        (b + 32) as u8
    } else {
        b
    }
}

pub open spec fn lower(s: Seq<u8>) -> Seq<u8> {
    s.map_values(|b: u8| ascii_lower(b))
}

/// Digits, possibly with one decimal point, and at least one digit.
pub open spec fn is_mantissa(m: Seq<u8>) -> bool {
    ||| m.len() >= 1 && all_digits(m)
    ||| exists|d: int|
        0 <= d < m.len() && m[d] == 46 && all_digits(m.take(d)) && all_digits(m.skip(d + 1))
            && m.len() >= 2
}

/// An optional sign, then at least one digit.
pub open spec fn is_exponent(x: Seq<u8>) -> bool {
    let d = if x.len() > 0 && (x[0] == 43 || x[0] == 45) {
        x.drop_first()
    } else {
        x
    };
    d.len() >= 1 && all_digits(d)
}

/// A decimal number with an optional exponent introduced by `e` or `E`.
pub open spec fn is_decimal_number(b: Seq<u8>) -> bool {
    ||| is_mantissa(b)
    ||| exists|p: int|
        0 <= p < b.len() && (b[p] == 101 || b[p] == 69) && is_mantissa(b.take(p)) && is_exponent(
            b.skip(p + 1),
        )
}

pub open spec fn word_inf() -> Seq<u8> {
    seq![105u8, 110u8, 102u8]
}

pub open spec fn word_infinity() -> Seq<u8> {
    seq![105u8, 110u8, 102u8, 105u8, 110u8, 105u8, 116u8, 121u8]
}

pub open spec fn word_nan() -> Seq<u8> {
    seq![110u8, 97u8, 110u8]
}

/// The texts that std's `f64::from_str` accepts, following its documented grammar
/// (`inf`, `infinity` and `nan` in any case):
/// `Sign? ( 'inf' | 'infinity' | 'nan' | Number )`,
/// `Number ::= ( Digit+ | Digit+ '.' Digit* | Digit* '.' Digit+ ) Exp?`,
/// `Exp ::= 'e' Sign? Digit+`.
pub open spec fn is_float_text(s: Seq<u8>) -> bool {
    let body = if s.len() > 0 && (s[0] == 43 || s[0] == 45) {
        s.drop_first()
    } else {
        s
    };
    ||| lower(body) == word_inf()
    ||| lower(body) == word_infinity()
    ||| lower(body) == word_nan()
    ||| is_decimal_number(body)
}

proof fn lemma_decimal_value_push(s: Seq<u8>, b: u8)
    ensures
        decimal_value(s.push(b)) == decimal_value(s) * 10 + (b - 48) as nat,
{
    assert(s.push(b).drop_last() =~= s);
}

/// Reads a run of decimal digits, returning its value when it is at most `max`.
fn digits_value(s: &[u8], from: usize, max: u64) -> (r: Option<u64>)
    requires
        from <= s@.len(),
        max >= 9,
    ensures
        match r {
            Some(v) => all_digits(s@.skip(from as int)) && decimal_value(s@.skip(from as int))
                == v && v <= max,
            None => !all_digits(s@.skip(from as int)) || decimal_value(s@.skip(from as int))
                > max,
        },
{
    let mut value: u64 = 0;
    let mut i: usize = from;
    while i < s.len()
        invariant
            from <= i <= s@.len(),
            max >= 9,
            all_digits(s@.subrange(from as int, i as int)),
            decimal_value(s@.subrange(from as int, i as int)) == value,
            value <= max,
        decreases s@.len() - i,
    {
        let b: u8 = s[i];
        proof {
            assert(s@.subrange(from as int, i + 1) =~= s@.subrange(from as int, i as int).push(b));
            lemma_decimal_value_push(s@.subrange(from as int, i as int), b);
        }
        if b < 48 || b > 57 {
            proof {
                assert(s@.skip(from as int)[i - from] == b);
            }
            return None;
        }
        let d: u64 = (b - 48) as u64;
        let q: u64 = (max - d) / 10;
        proof {
            vstd::arithmetic::div_mod::lemma_fundamental_div_mod((max - d) as int, 10);
        }
        if value > q {
            proof {
                let rest = s@.skip(from as int);
                let pre = s@.subrange(from as int, i + 1);
                assert(rest.take(i - from + 1) =~= pre);
                assert(value * 10 + d > max) by (nonlinear_arith)
                    requires
                        value > q,
                        10 * q + (max - d) % 10 == max - d,
                        (max - d) % 10 < 10,
                ;
                if all_digits(rest) {
                    lemma_decimal_prefix_bound(rest, i - from + 1);
                }
            }
            return None;
        }
        proof {
            assert(value * 10 + d <= max) by (nonlinear_arith)
                requires
                    value <= q,
                    10 * q + (max - d) % 10 == max - d,
                    0 <= (max - d) % 10,
            ;
        }
        value = value * 10 + d;
        i = i + 1;
    }
    proof {
        assert(s@.subrange(from as int, i as int) =~= s@.skip(from as int));
    }
    Some(value)
}

/// The value of digits never decreases when more digits follow.
proof fn lemma_decimal_prefix_bound(s: Seq<u8>, k: int)
    requires
        0 <= k <= s.len(),
        all_digits(s),
    ensures
        decimal_value(s) >= decimal_value(s.take(k)),
    decreases s.len(),
{
    if k < s.len() {
        lemma_decimal_prefix_bound(s.drop_last(), k);
        assert(s.drop_last().take(k) =~= s.take(k));
        assert(is_digit(s[s.len() - 1]));
    } else {
        assert(s.take(k) =~= s);
    }
}

/// Reads an unsigned integer no larger than `max`, as std's `FromStr` does.
pub fn parse_unsigned_text(s: &[u8], max: u64) -> (r: Option<u64>)
    requires
        max >= 9,
    ensures
        match r {
            Some(v) => parse_unsigned(s@, max as int) == Some(v as int),
            None => parse_unsigned(s@, max as int) is None,
        },
{
    let from: usize = if s.len() > 0 && s[0] == 43 {
        1
    } else {
        0
    };
    proof {
        assert(without_plus(s@) =~= s@.skip(from as int));
    }
    if from == s.len() {
        return None;
    }
    digits_value(s, from, max)
}

/// Reads an `i64`, as std's `FromStr` does.
pub fn parse_i64_text(s: &[u8]) -> (r: Option<i64>)
    ensures
        match r {
            Some(v) => parse_i64(s@) == Some(v as int),
            None => parse_i64(s@) is None,
        },
{
    let negative: bool = s.len() > 0 && s[0] == 45;
    let from: usize = if s.len() > 0 && (s[0] == 43 || s[0] == 45) {
        1
    } else {
        0
    };
    if from == s.len() {
        proof {
            assert(s@.skip(from as int).len() == 0);
            if s@.len() > 0 && (s@[0] == 43 || s@[0] == 45) {
                assert(s@.drop_first() =~= s@.skip(1));
            } else {
                assert(s@ =~= s@.skip(0));
            }
        }
        return None;
    }
    proof {
        if from == 1 {
            assert(s@.drop_first() =~= s@.skip(1));
        } else {
            assert(s@ =~= s@.skip(0));
        }
    }
    let limit: u64 = if negative {
        9223372036854775808
    } else {
        9223372036854775807
    };
    match digits_value(s, from, limit) {
        None => None,
        Some(m) => {
            if negative {
                if m == 9223372036854775808 {
                    Some(i64::MIN)
                } else {
                    Some(-(m as i64))
                }
            } else {
                Some(m as i64)
            }
        },
    }
}

/// Whether a run of bytes consists of decimal digits only.
fn all_digits_in(s: &[u8], from: usize, to: usize) -> (r: bool)
    requires
        from <= to <= s@.len(),
    ensures
        r == all_digits(s@.subrange(from as int, to as int)),
{
    let mut i: usize = from;
    while i < to
        invariant
            from <= i <= to <= s@.len(),
            all_digits(s@.subrange(from as int, i as int)),
        decreases to - i,
    {
        if s[i] < 48 || s[i] > 57 {
            proof {
                assert(s@.subrange(from as int, to as int)[i - from] == s@[i as int]);
            }
            return false;
        }
        i = i + 1;
        proof {
            assert forall|k: int| 0 <= k < i - from implies is_digit(
                #[trigger] s@.subrange(from as int, i as int)[k],
            ) by {
                if k < i - 1 - from {
                    assert(s@.subrange(from as int, i as int)[k] == s@.subrange(
                        from as int,
                        i - 1,
                    )[k]);
                }
            }
        }
    }
    true
}

/// Whether `s[from..to]` is digits with at most one decimal point and at least one digit.
fn mantissa_in(s: &[u8], from: usize, to: usize) -> (r: bool)
    requires
        from <= to <= s@.len(),
    ensures
        r == is_mantissa(s@.subrange(from as int, to as int)),
{
    let ghost m: Seq<u8> = s@.subrange(from as int, to as int);
    // Position of the first decimal point, if any.
    let mut dot: usize = from;
    while dot < to && s[dot] != 46
        invariant
            from <= dot <= to <= s@.len(),
            forall|k: int| from <= k < dot ==> s@[k] != 46,
        decreases to - dot,
    {
        dot = dot + 1;
    }
    if dot == to {
        let r: bool = to > from && all_digits_in(s, from, to);
        proof {
            if !r && is_mantissa(m) {
                if m.len() >= 1 && all_digits(m) {
                } else {
                    let d = choose|d: int|
                        0 <= d < m.len() && m[d] == 46 && all_digits(m.take(d)) && all_digits(
                            m.skip(d + 1),
                        ) && m.len() >= 2;
                    assert(s@[from + d] == 46);
                }
            }
        }
        return r;
    }
    let before: bool = all_digits_in(s, from, dot);
    let after: bool = all_digits_in(s, dot + 1, to);
    let r: bool = before && after && to - from >= 2;
    proof {
        let d = dot - from;
        assert(m.take(d) =~= s@.subrange(from as int, dot as int));
        assert(m.skip(d + 1) =~= s@.subrange(dot + 1, to as int));
        assert(m[d] == 46);
        if !r && is_mantissa(m) {
            if m.len() >= 1 && all_digits(m) {
                assert(is_digit(m[d]));
            } else {
                let d2 = choose|d2: int|
                    0 <= d2 < m.len() && m[d2] == 46 && all_digits(m.take(d2)) && all_digits(
                        m.skip(d2 + 1),
                    ) && m.len() >= 2;
                if d2 < d {
                    assert(s@[from + d2] == 46);
                } else if d2 > d {
                    assert(m.take(d2)[d] == 46);
                    assert(is_digit(m.take(d2)[d]));
                }
            }
        }
    }
    r
}

/// Whether `s[from..to]` is an optional sign followed by at least one digit.
fn exponent_in(s: &[u8], from: usize, to: usize) -> (r: bool)
    requires
        from <= to <= s@.len(),
    ensures
        r == is_exponent(s@.subrange(from as int, to as int)),
{
    let ghost x: Seq<u8> = s@.subrange(from as int, to as int);
    let start: usize = if from < to && (s[from] == 43 || s[from] == 45) {
        from + 1
    } else {
        from
    };
    proof {
        if start == from + 1 {
            assert(x.drop_first() =~= s@.subrange(start as int, to as int));
        } else {
            assert(x =~= s@.subrange(start as int, to as int));
        }
    }
    start < to && all_digits_in(s, start, to)
}

/// Whether the bytes equal a lower-case ASCII word, ignoring case.
fn equals_ignore_case(s: &[u8], from: usize, word: &[u8]) -> (r: bool)
    requires
        from <= s@.len(),
    ensures
        r == (lower(s@.skip(from as int)) == word@),
{
    let ghost body: Seq<u8> = s@.skip(from as int);
    let slen: usize = s.len();
    if slen - from != word.len() {
        proof {
            assert(lower(body).len() == body.len());
        }
        return false;
    }
    let mut i: usize = 0;
    while i < word.len()
        invariant
            from <= s@.len(),
            s@.len() - from == word@.len(),
            from + word@.len() == slen,
            slen == s@.len(),
            body == s@.skip(from as int),
            i <= word@.len(),
            forall|k: int| 0 <= k < i ==> ascii_lower(body[k]) == word@[k],
        decreases word@.len() - i,
    {
        let b: u8 = s[from + i];
        let lowered: u8 = if b >= 65 && b <= 90 {
            b + 32
        } else {
            b
        };
        if lowered != word[i] {
            proof {
                assert(lower(body)[i as int] != word@[i as int]);
            }
            return false;
        }
        i = i + 1;
    }
    proof {
        assert(lower(body) =~= word@);
    }
    true
}

/// Whether std's `f64::from_str` accepts the text.
pub fn is_float_text_exec(s: &[u8]) -> (r: bool)
    ensures
        r == is_float_text(s@),
{
    let from: usize = if s.len() > 0 && (s[0] == 43 || s[0] == 45) {
        1
    } else {
        0
    };
    let ghost body: Seq<u8> = s@.skip(from as int);
    proof {
        if from == 1 {
            assert(s@.drop_first() =~= body);
        } else {
            assert(s@ =~= body);
        }
    }
    let inf: [u8; 3] = [105, 110, 102];
    let infinity: [u8; 8] = [105, 110, 102, 105, 110, 105, 116, 121];
    let nan: [u8; 3] = [110, 97, 110];
    proof {
        assert(inf@ =~= word_inf());
        assert(infinity@ =~= word_infinity());
        assert(nan@ =~= word_nan());
    }
    if equals_ignore_case(s, from, inf.as_slice()) || equals_ignore_case(
        s,
        from,
        infinity.as_slice(),
    ) || equals_ignore_case(s, from, nan.as_slice()) {
        return true;
    }
    // The exponent starts at the first `e` or `E`, if any.
    let len: usize = s.len();
    let mut p: usize = from;
    while p < len && s[p] != 101 && s[p] != 69
        invariant
            from <= p <= len == s@.len(),
            forall|k: int| from <= k < p ==> s@[k] != 101 && s@[k] != 69,
        decreases len - p,
    {
        p = p + 1;
    }
    proof {
        assert(body =~= s@.subrange(from as int, len as int));
    }
    if p == len {
        let r: bool = mantissa_in(s, from, len);
        proof {
            if !r && is_decimal_number(body) {
                let q = choose|q: int|
                    0 <= q < body.len() && (body[q] == 101 || body[q] == 69) && is_mantissa(
                        body.take(q),
                    ) && is_exponent(body.skip(q + 1));
                assert(s@[from + q] == body[q]);
            }
        }
        return r;
    }
    let r: bool = mantissa_in(s, from, p) && exponent_in(s, p + 1, len);
    proof {
        let q0 = p - from;
        assert(body.take(q0) =~= s@.subrange(from as int, p as int));
        assert(body.skip(q0 + 1) =~= s@.subrange(p + 1, len as int));
        assert(body[q0] == s@[p as int]);
        assert(body[q0] == 101 || body[q0] == 69);
        if r {
            assert(is_mantissa(body.take(q0)) && is_exponent(body.skip(q0 + 1)));
            assert(is_decimal_number(body));
        }
        if is_mantissa(body) {
            lemma_mantissa_has_no_e(body, q0);
        }
        if !r && is_decimal_number(body) && !is_mantissa(body) {
            let q = choose|q: int|
                0 <= q < body.len() && (body[q] == 101 || body[q] == 69) && is_mantissa(
                    body.take(q),
                ) && is_exponent(body.skip(q + 1));
            if q < q0 {
                assert(s@[from + q] == body[q]);
            } else if q > q0 {
                lemma_mantissa_has_no_e(body.take(q), q0);
                assert(body.take(q)[q0] == body[q0]);
            }
        }
    }
    r
}

/// A mantissa holds no exponent letter.
proof fn lemma_mantissa_has_no_e(m: Seq<u8>, q: int)
    requires
        is_mantissa(m),
        0 <= q < m.len(),
    ensures
        m[q] != 101 && m[q] != 69,
{
    if m.len() >= 1 && all_digits(m) {
        assert(is_digit(m[q]));
    } else {
        let d = choose|d: int|
            0 <= d < m.len() && m[d] == 46 && all_digits(m.take(d)) && all_digits(m.skip(d + 1))
                && m.len() >= 2;
        if q < d {
            assert(m.take(d)[q] == m[q]);
            assert(is_digit(m.take(d)[q]));
        } else if q > d {
            assert(m.skip(d + 1)[q - d - 1] == m[q]);
            assert(is_digit(m.skip(d + 1)[q - d - 1]));
        }
    }
}

} // verus!
