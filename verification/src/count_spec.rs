//! Parsing of textual count specifications such as `10`, `-5`, `3k`, `2MB`,
//! `100b` into a signed magnitude.
//!
//! The grammar: an optional leading `-` or `+`, a decimal body, and an
//! optional unit suffix.  A trailing `b` scales by 512.  A trailing `B`
//! preceded by `k` scales by 1000; preceded by another letter of the ordered
//! alphabet `K M G T P E Z Y` it scales by the decimal power `10^(index+1)`.
//! A bare trailing letter of that alphabet (with `k` accepted for `K`) scales
//! by the binary power `2^(10*(index+1))`.  Anything else fails, and the
//! error carries the original literal verbatim.

use vstd::prelude::*;

verus! {

/// A decimal digit character.
pub open spec fn is_digit(c: char) -> bool {
    48 <= c as int && c as int <= 57
}

/// The numeric value of a digit character.
pub open spec fn digit_val(c: char) -> int {
    c as int - 48
}

/// Whether every character of `s` is a decimal digit.
pub open spec fn all_digits(s: Seq<char>) -> bool {
    forall|i: int| 0 <= i < s.len() ==> is_digit(s[i])
}

/// The value of a sequence of digit characters read as a decimal numeral.
pub open spec fn digits_value(s: Seq<char>) -> int
    decreases s.len(),
{
    if s.len() == 0 {
        0
    } else {
        digits_value(s.drop_last()) * 10 + digit_val(s.last())
    }
}

/// The value of a numeric body: an optional sign followed by a non-empty
/// run of digits; `None` when the body does not have that shape.
pub open spec fn spec_signed_value(s: Seq<char>) -> Option<int> {
    if s.len() == 0 {
        None
    } else if s[0] == '-' {
        if s.len() > 1 && all_digits(s.skip(1)) {
            Some(-digits_value(s.skip(1)))
        } else {
            None
        }
    } else if s[0] == '+' {
        if s.len() > 1 && all_digits(s.skip(1)) {
            Some(digits_value(s.skip(1)))
        } else {
            None
        }
    } else {
        if all_digits(s) {
            Some(digits_value(s))
        } else {
            None
        }
    }
}

/// `10^n`.
pub open spec fn pow10(n: nat) -> int
    decreases n,
{
    if n == 0 {
        1
    } else {
        10 * pow10((n - 1) as nat)
    }
}

/// `2^n`.
pub open spec fn pow2(n: nat) -> int
    decreases n,
{
    if n == 0 {
        1
    } else {
        2 * pow2((n - 1) as nat)
    }
}

/// 0-based position of a letter in the ordered unit alphabet `K M G T P E Z Y`;
/// the lowercase `k` is accepted for `K`.
pub open spec fn spec_suffix_index(c: char) -> Option<int> {
    if c == 'K' || c == 'k' {
        Some(0int)
    } else if c == 'M' {
        Some(1int)
    } else if c == 'G' {
        Some(2int)
    } else if c == 'T' {
        Some(3int)
    } else if c == 'P' {
        Some(4int)
    } else if c == 'E' {
        Some(5int)
    } else if c == 'Z' {
        Some(6int)
    } else if c == 'Y' {
        Some(7int)
    } else {
        None
    }
}

/// Splits a specification into its scale factor and the length of its
/// numeric body, by the unit suffix; `None` when the suffix is malformed.
pub open spec fn spec_split(s: Seq<char>) -> Option<(int, int)> {
    if s.len() == 0 {
        None
    } else {
        let last = s[s.len() - 1];
        if last == 'b' {
            Some((512int, s.len() as int - 1))
        } else if last == 'B' {
            if s.len() >= 2 {
                let u = s[s.len() - 2];
                if u == 'k' {
                    Some((1000int, s.len() as int - 2))
                } else {
                    match spec_suffix_index(u) {
                        Some(i) => Some((pow10((i + 1) as nat), s.len() as int - 2)),
                        None => None,
                    }
                }
            } else {
                None
            }
        } else {
            match spec_suffix_index(last) {
                Some(i) => Some((pow2((10 * (i + 1)) as nat), s.len() as int - 1)),
                None => Some((1int, s.len() as int)),
            }
        }
    }
}

/// The value denoted by a count specification: the scale factor of its unit
/// suffix times its signed numeric body; `None` when the grammar rejects it.
pub open spec fn spec_parse(s: Seq<char>) -> Option<int> {
    match spec_split(s) {
        None => None,
        Some((scale, body_len)) => match spec_signed_value(s.take(body_len)) {
            Some(v) => Some(scale * v),
            None => None,
        },
    }
}

proof fn lemma_pow10_le(i: nat, j: nat)
    requires
        i <= j,
    ensures
        1 <= pow10(i) <= pow10(j),
    decreases j,
{
    if j == 0 {
    } else if i == j {
        lemma_pow10_le(0, (j - 1) as nat);
    } else {
        lemma_pow10_le(i, (j - 1) as nat);
    }
}

proof fn lemma_pow2_le(i: nat, j: nat)
    requires
        i <= j,
    ensures
        1 <= pow2(i) <= pow2(j),
    decreases j,
{
    if j == 0 {
    } else if i == j {
        lemma_pow2_le(0, (j - 1) as nat);
    } else {
        lemma_pow2_le(i, (j - 1) as nat);
    }
}

proof fn lemma_pow10_8()
    ensures
        pow10(8) == 100000000,
{
    reveal_with_fuel(pow10, 9);
}

proof fn lemma_pow2_80()
    ensures
        pow2(80) == 0x100000000000000000000,
{
    reveal_with_fuel(pow2, 81);
}

/// Every digit sequence has a non-negative value.
proof fn lemma_digits_nonneg(s: Seq<char>)
    requires
        all_digits(s),
    ensures
        digits_value(s) >= 0,
    decreases s.len(),
{
    if s.len() > 0 {
        assert(forall|i: int| 0 <= i < s.drop_last().len() ==> is_digit(#[trigger] s.drop_last()[i]));
        lemma_digits_nonneg(s.drop_last());
    }
}

/// The value of a prefix of a digit sequence never exceeds the whole value.
proof fn lemma_digits_prefix_le(s: Seq<char>, k: int)
    requires
        all_digits(s),
        0 <= k <= s.len(),
    ensures
        0 <= digits_value(s.take(k)) <= digits_value(s),
    decreases s.len(),
{
    if k == s.len() {
        assert(s.take(k) =~= s);
        lemma_digits_nonneg(s);
    } else {
        assert(forall|i: int| 0 <= i < s.drop_last().len() ==> is_digit(#[trigger] s.drop_last()[i]));
        lemma_digits_prefix_le(s.drop_last(), k);
        assert(s.drop_last().take(k) =~= s.take(k));
        lemma_digits_nonneg(s.drop_last());
    }
}

fn suffix_index(c: char) -> (r: Option<u32>)
    ensures
        match r {
            Some(i) => spec_suffix_index(c) == Some(i as int) && i <= 7,
            None => spec_suffix_index(c) is None,
        },
{
    if c == 'K' || c == 'k' {
        Some(0)
    } else if c == 'M' {
        Some(1)
    } else if c == 'G' {
        Some(2)
    } else if c == 'T' {
        Some(3)
    } else if c == 'P' {
        Some(4)
    } else if c == 'E' {
        Some(5)
    } else if c == 'Z' {
        Some(6)
    } else if c == 'Y' {
        Some(7)
    } else {
        None
    }
}

fn pow10_exec(e: u32) -> (r: i128)
    requires
        e <= 8,
    ensures
        r == pow10(e as nat),
{
    let mut r: i128 = 1;
    let mut i: u32 = 0;
    while i < e
        invariant
            i <= e,
            e <= 8,
            r == pow10(i as nat),
        decreases e - i,
    {
        proof {
            lemma_pow10_le((i + 1) as nat, 8);
            lemma_pow10_8();
        }
        r = r * 10;
        i = i + 1;
    }
    r
}

fn pow2_exec(e: u32) -> (r: i128)
    requires
        e <= 80,
    ensures
        r == pow2(e as nat),
{
    let mut r: i128 = 1;
    let mut i: u32 = 0;
    while i < e
        invariant
            i <= e,
            e <= 80,
            r == pow2(i as nat),
        decreases e - i,
    {
        proof {
            lemma_pow2_le((i + 1) as nat, 80);
            lemma_pow2_80();
        }
        r = r * 2;
        i = i + 1;
    }
    r
}

/// Parses the numeric body `val[0..body_end]`: `None` when the body is not
/// an optionally signed run of digits, or its value does not fit in `i128`.
fn parse_body(val: &str, body_end: usize) -> (r: Option<i128>)
    requires
        body_end <= val@.len(),
    ensures
        spec_signed_value(val@.take(body_end as int)) is None ==> r is None,
        spec_signed_value(val@.take(body_end as int)) matches Some(v) ==> {
            &&& (r is Some <==> i128::MIN <= v <= i128::MAX)
            &&& (r matches Some(a) ==> a as int == v)
        },
{
    let ghost body = val@.take(body_end as int);
    if body_end == 0 {
        return None;
    }
    let first = val.get_char(0);
    let neg: bool;
    let start: usize;
    if first == '-' {
        neg = true;
        start = 1;
    } else if first == '+' {
        neg = false;
        start = 1;
    } else {
        neg = false;
        start = 0;
    }
    if start >= body_end {
        return None;
    }
    let mut acc: i128 = 0;
    let mut i: usize = start;
    while i < body_end
        invariant
            start <= i <= body_end,
            start < body_end,
            start <= 1,
            body_end <= val@.len(),
            body == val@.take(body_end as int),
            start == 1 ==> val@[0] == '-' || val@[0] == '+',
            start == 1 ==> (neg <==> val@[0] == '-'),
            start == 0 ==> !neg && val@[0] != '-' && val@[0] != '+',
            forall|j: int| start <= j < i ==> is_digit(val@[j]),
            acc == if neg {
                -digits_value(val@.subrange(start as int, i as int))
            } else {
                digits_value(val@.subrange(start as int, i as int))
            },
        decreases body_end - i,
    {
        let c = val.get_char(i);
        let cu = c as u32;
        if cu < 48 || cu > 57 {
            proof {
                let dpart = body.skip(start as int);
                assert(dpart[i - start] == val@[i as int]);
                assert(!is_digit(dpart[i - start]));
            }
            return None;
        }
        let d: i128 = (cu - 48) as i128;
        let next: Option<i128> = match acc.checked_mul(10) {
            Some(t) => if neg {
                t.checked_sub(d)
            } else {
                t.checked_add(d)
            },
            None => None,
        };
        proof {
            assert(val@.subrange(start as int, i as int + 1).drop_last() =~= val@.subrange(
                start as int,
                i as int,
            ));
            assert(val@.subrange(start as int, i as int + 1).last() == val@[i as int]);
        }
        match next {
            None => {
                proof {
                    let dpart = body.skip(start as int);
                    let stepped = val@.subrange(start as int, i as int + 1);
                    if all_digits(dpart) {
                        assert(dpart =~= val@.subrange(start as int, body_end as int));
                        lemma_digits_prefix_le(dpart, i + 1 - start as int);
                        assert(dpart.take(i + 1 - start as int) =~= stepped);
                    }
                }
                return None;
            },
            Some(a2) => {
                acc = a2;
                i = i + 1;
            },
        }
    }
    proof {
        let dpart = body.skip(start as int);
        assert(dpart =~= val@.subrange(start as int, body_end as int));
        assert(body[0] == val@[0]);
    }
    Some(acc)
}

/// Parses a count specification.  Returns the scaled signed magnitude; on
/// any input that the grammar rejects, or whose value does not fit in
/// `i128`, returns the original literal verbatim as the error.
///
/// The policy here is uniformly permissive: `0`, and negative values — which
/// extraction reads as "all but the trailing so many" — are legal magnitudes.
pub fn parse(val: &str) -> (r: Result<i128, String>)
    ensures
        r is Ok <==> (spec_parse(val@) is Some && i128::MIN <= spec_parse(val@)->Some_0
            <= i128::MAX),
        r matches Ok(v) ==> spec_parse(val@) == Some(v as int),
        r matches Err(e) ==> e@ == val@,
{
    let n = val.unicode_len();
    if n == 0 {
        return Err(val.to_owned());
    }
    let last = val.get_char(n - 1);
    let scale: i128;
    let body_end: usize;
    if last == 'b' {
        scale = 512;
        body_end = n - 1;
    } else if last == 'B' {
        if n < 2 {
            return Err(val.to_owned());
        }
        let u = val.get_char(n - 2);
        if u == 'k' {
            scale = 1000;
            body_end = n - 2;
        } else {
            match suffix_index(u) {
                Some(idx) => {
                    scale = pow10_exec(idx + 1);
                    body_end = n - 2;
                },
                None => {
                    return Err(val.to_owned());
                },
            }
        }
    } else {
        match suffix_index(last) {
            Some(idx) => {
                scale = pow2_exec(10 * (idx + 1));
                body_end = n - 1;
            },
            None => {
                scale = 1;
                body_end = n;
            },
        }
    }
    proof {
        assert(spec_split(val@) == Some((scale as int, body_end as int)));
        assert(scale >= 1) by {
            if val@[n as int - 1] == 'b' {
            } else if val@[n as int - 1] == 'B' {
                if val@[n as int - 2] != 'k' {
                    lemma_pow10_le(0, (spec_suffix_index(val@[n as int - 2])->Some_0 + 1) as nat);
                }
            } else if spec_suffix_index(val@[n as int - 1]) is Some {
                lemma_pow2_le(0, (10 * (spec_suffix_index(val@[n as int - 1])->Some_0 + 1)) as nat);
            }
        };
    }
    match parse_body(val, body_end) {
        None => {
            proof {
                let body = val@.take(body_end as int);
                if spec_signed_value(body) is Some {
                    let v = spec_signed_value(body)->Some_0;
                    if v > i128::MAX {
                        assert(scale as int * v >= v) by (nonlinear_arith)
                            requires
                                scale >= 1,
                                v > 0,
                        ;
                    }
                    if v < i128::MIN {
                        assert(scale as int * v <= v) by (nonlinear_arith)
                            requires
                                scale >= 1,
                                v < 0,
                        ;
                    }
                }
            }
            Err(val.to_owned())
        },
        Some(acc) => {
            match scale.checked_mul(acc) {
                Some(p) => Ok(p),
                None => Err(val.to_owned()),
            }
        },
    }
}

/// The digit character of a value below ten.
pub open spec fn spec_digit_char(d: int) -> char {
    if d == 0 {
        '0'
    } else if d == 1 {
        '1'
    } else if d == 2 {
        '2'
    } else if d == 3 {
        '3'
    } else if d == 4 {
        '4'
    } else if d == 5 {
        '5'
    } else if d == 6 {
        '6'
    } else if d == 7 {
        '7'
    } else if d == 8 {
        '8'
    } else {
        '9'
    }
}

/// The decimal numeral of a non-negative integer.
pub open spec fn spec_decimal(n: nat) -> Seq<char>
    decreases n,
{
    if n < 10 {
        seq![spec_digit_char(n as int)]
    } else {
        spec_decimal(n / 10) + seq![spec_digit_char((n % 10) as int)]
    }
}

proof fn lemma_decimal_digits(n: nat)
    ensures
        spec_decimal(n).len() >= 1,
        all_digits(spec_decimal(n)),
        digits_value(spec_decimal(n)) == n,
    decreases n,
{
    if n < 10 {
        assert(spec_decimal(n) =~= seq![spec_digit_char(n as int)]);
        assert(spec_decimal(n).drop_last() =~= Seq::<char>::empty());
        assert(spec_decimal(n).last() == spec_digit_char(n as int));
        assert(digit_val(spec_digit_char(n as int)) == n);
        assert(digits_value(spec_decimal(n)) == digits_value(spec_decimal(n).drop_last()) * 10
            + digit_val(spec_decimal(n).last()));
    } else {
        lemma_decimal_digits(n / 10);
        let s = spec_decimal(n);
        assert(s.drop_last() =~= spec_decimal(n / 10));
        assert(s.last() == spec_digit_char((n % 10) as int));
        assert(forall|i: int|
            0 <= i < s.len() ==> is_digit(#[trigger] s[i]) == if i < s.len() - 1 {
                is_digit(spec_decimal(n / 10)[i])
            } else {
                is_digit(spec_digit_char((n % 10) as int))
            });
    }
}

/// Law: a plain decimal numeral, with no sign and no suffix, parses back to
/// the very value it denotes.
pub proof fn lemma_parse_decimal_round_trip(k: int)
    requires
        0 <= k,
    ensures
        spec_parse(spec_decimal(k as nat)) == Some(k),
{
    lemma_decimal_digits(k as nat);
    let s = spec_decimal(k as nat);
    assert(is_digit(s[s.len() - 1]));
    assert(is_digit(s[0]));
    assert(spec_split(s) == Some((1int, s.len() as int)));
    assert(s.take(s.len() as int) =~= s);
    assert(spec_signed_value(s) == Some(digits_value(s)));
    assert(digits_value(s) == k);
    assert(spec_parse(s) == Some(1int * digits_value(s)));
    assert(1int * digits_value(s) == k);
}

} // verus!
