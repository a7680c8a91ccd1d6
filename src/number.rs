//! Reading unsigned integers and decimal numbers from field text.
use vstd::prelude::*;

verus! {

/// Most digits a `Decimal` holds: any 18 decimal digits fit an `i64`.
pub const MAX_DECIMAL_DIGITS: usize = 18;

pub open spec fn is_digit(c: char) -> bool {
    '0' <= c && c <= '9'
}

pub open spec fn all_digits(s: Seq<char>) -> bool {
    forall|i: int| 0 <= i < s.len() ==> is_digit(#[trigger] s[i])
}

pub open spec fn digit_value(c: char) -> nat {
    (c as int - '0' as int) as nat
}

/// The number that a string of decimal digits writes, most significant first.
pub open spec fn digits_value(s: Seq<char>) -> nat
    decreases s.len(),
{
    if s.len() == 0 {
        0
    } else {
        digits_value(s.drop_last()) * 10 + digit_value(s.last())
    }
}

pub open spec fn pow10(n: nat) -> nat
    decreases n,
{
    if n == 0 {
        1
    } else {
        10 * pow10((n - 1) as nat)
    }
}

/// An unsigned integer as Rust writes it: an optional `+`, then one or more digits.
pub open spec fn unsigned_value(s: Seq<char>) -> Option<nat> {
    let d = if s.len() > 0 && s[0] == '+' {
        s.drop_first()
    } else {
        s
    };
    if d.len() > 0 && all_digits(d) {
        Some(digits_value(d))
    } else {
        None
    }
}

pub proof fn lemma_digits_value_bound(s: Seq<char>)
    requires
        all_digits(s),
    ensures
        digits_value(s) < pow10(s.len()),
    decreases s.len(),
{
    if s.len() > 0 {
        let p = s.drop_last();
        assert(all_digits(p)) by {
            assert forall|i: int| 0 <= i < p.len() implies is_digit(#[trigger] p[i]) by {
                assert(p[i] == s[i]);
            }
        }
        lemma_digits_value_bound(p);
        assert(is_digit(s[s.len() - 1]));
        assert(digits_value(s) < pow10(s.len())) by (nonlinear_arith)
            requires
                digits_value(s) == digits_value(p) * 10 + digit_value(s.last()),
                digits_value(p) < pow10(p.len()),
                digit_value(s.last()) < 10,
                pow10(s.len()) == 10 * pow10(p.len()),
        ;
    }
}

pub proof fn lemma_digits_value_grows(s: Seq<char>, k: int)
    requires
        0 <= k <= s.len(),
    ensures
        digits_value(s.take(k)) <= digits_value(s),
    decreases s.len() - k,
{
    if k < s.len() {
        lemma_digits_value_grows(s, k + 1);
        assert(s.take(k + 1).drop_last() =~= s.take(k));
    } else {
        assert(s.take(k) =~= s);
    }
}

pub proof fn lemma_pow10_18()
    ensures
        pow10(18) == 1_000_000_000_000_000_000,
{
    reveal_with_fuel(pow10, 19);
}

/// Reads `cs[from..]` as an unsigned integer no larger than `max`: `None` where
/// a character is not a digit, where there is none, or where the value exceeds `max`.
fn digits_at_most(cs: &Vec<char>, from: usize, max: usize) -> (r: Option<usize>)
    requires
        from <= cs@.len(),
    ensures
        ({
            let d = cs@.skip(from as int);
            match r {
                Some(v) => d.len() > 0 && all_digits(d) && v == digits_value(d) && v <= max,
                None => !(d.len() > 0 && all_digits(d) && digits_value(d) <= max),
            }
        }),
{
    let ghost d = cs@.skip(from as int);
    if from == cs.len() {
        return None;
    }
    let mut value: usize = 0;
    let mut i: usize = from;
    while i < cs.len()
        invariant
            from <= i <= cs@.len(),
            d == cs@.skip(from as int),
            all_digits(d.take(i - from)),
            value == digits_value(d.take(i - from)),
            value <= max,
        decreases cs.len() - i,
    {
        let c = cs[i];
        proof {
            assert(d.take(i - from + 1).drop_last() =~= d.take(i - from));
            assert(d[i - from] == c);
        }
        if c < '0' || c > '9' {
            proof {
                assert(!is_digit(d[i - from]));
            }
            return None;
        }
        let digit = (c as u32 - '0' as u32) as usize;
        if digit > max || value > (max - digit) / 10 {
            proof {
                assert(digits_value(d.take(i - from + 1)) > max) by (nonlinear_arith)
                    requires
                        digits_value(d.take(i - from + 1)) == value * 10 + digit,
                        digit > max || value > (max - digit) / 10,
                        value >= 0,
                ;
                lemma_digits_value_grows(d, i - from + 1);
                assert(d.take(d.len() as int) =~= d);
            }
            return None;
        }
        proof {
            assert(value * 10 + digit <= max) by (nonlinear_arith)
                requires
                    value <= (max - digit) / 10,
                    digit <= max,
            ;
        }
        value = value * 10 + digit;
        i += 1;
        proof {
            assert forall|j: int| 0 <= j < d.take(i - from).len() implies is_digit(
                #[trigger] d.take(i - from)[j],
            ) by {
                if j < i - from - 1 {
                    assert(d.take(i - from)[j] == d.take(i - from - 1)[j]);
                }
            }
        }
    }
    proof {
        assert(d.take(i - from) =~= d);
    }
    Some(value)
}

/// Reads an unsigned integer no larger than `max`, as `unsigned_value` defines it.
pub fn unsigned_at_most(cs: &Vec<char>, max: usize) -> (r: Option<usize>)
    ensures
        match r {
            Some(v) => unsigned_value(cs@) == Some(v as nat) && v <= max,
            None => !(unsigned_value(cs@) is Some && unsigned_value(cs@)->0 <= max),
        },
{
    if cs.len() > 0 && cs[0] == '+' {
        proof {
            assert(cs@.skip(1) =~= cs@.drop_first());
        }
        digits_at_most(cs, 1, max)
    } else {
        proof {
            assert(cs@.skip(0) =~= cs@);
        }
        digits_at_most(cs, 0, max)
    }
}

/// An exact decimal number: `mantissa / 10^scale`.
#[derive(Clone, Copy, Debug, PartialEq, Eq)]
pub struct Decimal {
    pub mantissa: i64,
    pub scale: u32,
}

impl Decimal {
    pub fn new(mantissa: i64, scale: u32) -> (r: Decimal)
        ensures
            r == (Decimal { mantissa, scale }),
    {
        Decimal { mantissa, scale }
    }
}

/// Length of the sign at the front of `s`: 1 for a leading `-` or `+`, else 0.
pub open spec fn sign_len(s: Seq<char>) -> int {
    if s.len() > 0 && (s[0] == '-' || s[0] == '+') {
        1
    } else {
        0
    }
}

pub open spec fn is_negative(s: Seq<char>) -> bool {
    s.len() > 0 && s[0] == '-'
}

/// `body` is digits with a single `.` at `p`, or, where `p` is its length, digits alone.
pub open spec fn dot_split(body: Seq<char>, p: int) -> bool {
    ||| p == body.len() && all_digits(body)
    ||| 0 <= p < body.len() && body[p] == '.' && all_digits(body.take(p)) && all_digits(
        body.skip(p + 1),
    )
}

/// The digits of `body` once the `.` at `p` (if any) is taken out.
pub open spec fn digits_around(body: Seq<char>, p: int) -> Seq<char> {
    if p < body.len() {
        body.take(p) + body.skip(p + 1)
    } else {
        body
    }
}

/// Number of digits after the `.` at `p`.
pub open spec fn frac_len(body: Seq<char>, p: int) -> nat {
    if p < body.len() {
        (body.len() - p - 1) as nat
    } else {
        0
    }
}

/// A decimal number: an optional sign, then digits with at most one `.` among
/// them; at least one digit and at most `MAX_DECIMAL_DIGITS` of them; no exponent.
pub open spec fn decimal_view(s: Seq<char>) -> Option<Decimal> {
    let body = s.skip(sign_len(s));
    if exists|p: int| dot_split(body, p) {
        let p = choose|p: int| dot_split(body, p);
        let d = digits_around(body, p);
        if 1 <= d.len() <= MAX_DECIMAL_DIGITS {
            let m = digits_value(d) as int;
            Some(
                Decimal {
                    mantissa: (if is_negative(s) {
                        -m
                    } else {
                        m
                    }) as i64,
                    scale: frac_len(body, p) as u32,
                },
            )
        } else {
            None
        }
    } else {
        None
    }
}

proof fn lemma_dot_split_char(body: Seq<char>, p: int, k: int)
    requires
        dot_split(body, p),
        0 <= k < body.len(),
    ensures
        k == p ==> body[k] == '.',
        k != p ==> is_digit(body[k]),
{
    if k < p {
        assert(body.take(p)[k] == body[k]);
    } else if k > p {
        assert(body.skip(p + 1)[k - p - 1] == body[k]);
    }
}

proof fn lemma_dot_split_unique(body: Seq<char>, p: int, q: int)
    requires
        dot_split(body, p),
        dot_split(body, q),
    ensures
        p == q,
{
    if p < q {
        lemma_dot_split_char(body, q, p);
    } else if q < p {
        lemma_dot_split_char(body, p, q);
    }
}

/// Value of at most 18 digits.
fn small_digits_value(d: &Vec<char>) -> (r: u64)
    requires
        all_digits(d@),
        d@.len() <= MAX_DECIMAL_DIGITS,
    ensures
        r == digits_value(d@),
{
    let mut value: u64 = 0;
    let mut i: usize = 0;
    proof {
        lemma_pow10_18();
    }
    while i < d.len()
        invariant
            i <= d@.len() <= MAX_DECIMAL_DIGITS,
            all_digits(d@),
            value == digits_value(d@.take(i as int)),
            pow10(18) == 1_000_000_000_000_000_000,
        decreases d.len() - i,
    {
        proof {
            assert(d@.take(i + 1).drop_last() =~= d@.take(i as int));
            assert(all_digits(d@.take(i + 1))) by {
                assert forall|j: int| 0 <= j < d@.take(i + 1).len() implies is_digit(
                    #[trigger] d@.take(i + 1)[j],
                ) by {
                    assert(d@.take(i + 1)[j] == d@[j]);
                }
            }
            lemma_digits_value_bound(d@.take(i + 1));
            lemma_pow10_mono((i + 1) as nat, 18);
            assert(is_digit(d@[i as int]));
        }
        value = value * 10 + (d[i] as u32 - '0' as u32) as u64;
        i += 1;
    }
    proof {
        assert(d@.take(i as int) =~= d@);
    }
    value
}

proof fn lemma_pow10_mono(a: nat, b: nat)
    requires
        a <= b,
    ensures
        pow10(a) <= pow10(b),
    decreases b,
{
    if a < b {
        lemma_pow10_mono(a, (b - 1) as nat);
    }
}

/// Reads a decimal number as `decimal_view` defines it.
pub fn parse_decimal(cs: &Vec<char>) -> (r: Option<Decimal>)
    ensures
        r == decimal_view(cs@),
{
    let negative = cs.len() > 0 && cs[0] == '-';
    let start: usize = if cs.len() > 0 && (cs[0] == '-' || cs[0] == '+') {
        1
    } else {
        0
    };
    let ghost body = cs@.skip(start as int);
    let mut dot: usize = start;
    while dot < cs.len() && cs[dot] != '.'
        invariant
            start <= dot <= cs@.len(),
            start == sign_len(cs@),
            forall|j: int| start <= j < dot ==> cs@[j] != '.',
        decreases cs.len() - dot,
    {
        dot += 1;
    }
    let mut digits: Vec<char> = Vec::new();
    let mut j: usize = start;
    while j < dot
        invariant
            start <= j <= dot <= cs@.len(),
            start == sign_len(cs@),
            negative == is_negative(cs@),
            body == cs@.skip(start as int),
            forall|k: int| start <= k < dot ==> cs@[k] != '.',
            digits@ == cs@.subrange(start as int, j as int),
            all_digits(digits@),
        decreases dot - j,
    {
        let c = cs[j];
        if c < '0' || c > '9' {
            proof {
                assert(body[j - start] == c);
                assert(cs@[j as int] != '.');
                assert forall|p: int| !dot_split(body, p) by {
                    if dot_split(body, p) {
                        lemma_dot_split_char(body, p, j - start);
                    }
                }
                assert(!(exists|p: int| dot_split(body, p)));
                assert(start == sign_len(cs@));
            }
            return None;
        }
        digits.push(c);
        j += 1;
        proof {
            assert(digits@ =~= cs@.subrange(start as int, j as int));
        }
    }
    if dot < cs.len() {
        let mut k: usize = dot + 1;
        while k < cs.len()
            invariant
                start <= dot < k <= cs@.len(),
                start == sign_len(cs@),
                negative == is_negative(cs@),
                body == cs@.skip(start as int),
                cs@[dot as int] == '.',
                forall|q: int| start <= q < dot ==> cs@[q] != '.',
                digits@ == cs@.subrange(start as int, dot as int) + cs@.subrange(
                    dot + 1,
                    k as int,
                ),
                all_digits(cs@.subrange(start as int, dot as int)),
                all_digits(cs@.subrange(dot + 1, k as int)),
            decreases cs.len() - k,
        {
            let c = cs[k];
            if c < '0' || c > '9' {
                proof {
                    assert(body[k - start] == c);
                    assert(body[dot - start] == '.');
                    assert forall|p: int| !dot_split(body, p) by {
                        if dot_split(body, p) {
                            lemma_dot_split_char(body, p, k - start);
                            lemma_dot_split_char(body, p, dot - start);
                        }
                    }
                    assert(!(exists|p: int| dot_split(body, p)));
                    assert(start == sign_len(cs@));
                }
                return None;
            }
            digits.push(c);
            k += 1;
            proof {
                assert(cs@.subrange(dot + 1, k as int) =~= cs@.subrange(dot + 1, k - 1).push(c));
                assert(all_digits(cs@.subrange(dot + 1, k as int))) by {
                    assert forall|q: int| 0 <= q < k - dot - 1 implies is_digit(
                        #[trigger] cs@.subrange(dot + 1, k as int)[q],
                    ) by {
                        if q < k - dot - 2 {
                            assert(cs@.subrange(dot + 1, k as int)[q] == cs@.subrange(
                                dot + 1,
                                k - 1,
                            )[q]);
                        }
                    }
                }
            }
        }
        proof {
            let p = dot - start;
            assert(body.take(p) =~= cs@.subrange(start as int, dot as int));
            assert(body.skip(p + 1) =~= cs@.subrange(dot + 1, cs@.len() as int));
            assert(body[p] == '.');
            assert(dot_split(body, p));
            assert(digits@ =~= digits_around(body, p));
        }
    } else {
        proof {
            let p = dot - start;
            assert(body =~= cs@.subrange(start as int, dot as int));
            assert(dot_split(body, p));
            assert(digits@ =~= digits_around(body, p));
        }
    }
    let ghost p = dot - start;
    proof {
        let q = choose|q: int| dot_split(body, q);
        lemma_dot_split_unique(body, p, q);
        assert(all_digits(digits@)) by {
            assert forall|q: int| 0 <= q < digits@.len() implies is_digit(#[trigger] digits@[q]) by {
                if p < body.len() {
                    if q < p {
                        assert(digits@[q] == body[q]);
                        lemma_dot_split_char(body, p, q);
                    } else {
                        assert(digits@[q] == body[q + 1]);
                        lemma_dot_split_char(body, p, q + 1);
                    }
                } else {
                    lemma_dot_split_char(body, p, q);
                }
            }
        }
    }
    if digits.len() == 0 || digits.len() > MAX_DECIMAL_DIGITS {
        return None;
    }
    let value = small_digits_value(&digits);
    proof {
        lemma_digits_value_bound(digits@);
        lemma_pow10_mono(digits@.len(), 18);
        lemma_pow10_18();
    }
    let magnitude = value as i64;
    let scale: u32 = if dot < cs.len() {
        (cs.len() - dot - 1) as u32
    } else {
        0
    };
    Some(
        Decimal {
            mantissa: if negative {
                -magnitude
            } else {
                magnitude
            },
            scale,
        },
    )
}

} // verus!
