//! Duration texts such as `"500ms"`, `"2.5m"` or `"1.5hr"`, read as a
//! number of milliseconds.
//!
//! A text is trimmed and lowercased, then split at its first alphabetic
//! character: what comes before is a plain decimal numeral, what comes after
//! is a unit. The numeral is read exactly (no rounding through a binary
//! fraction): the result is the numeral times the unit's factor, truncated
//! toward zero, and capped at `u64::MAX`.

use vstd::prelude::*;
use vstd::string::*;
use vstd::arithmetic::div_mod::{lemma_div_denominator, lemma_hoist_over_denominator};
use crate::text::{alphabetic, is_alpha, lower_of, lowercase, trim_text, trim_ws};

verus! {

/// Why a duration text was refused; each variant carries a detail text.
#[derive(Debug)]
pub enum ParseError {
    /// The text is empty, or no unit follows a number.
    InvalidFormat(String),
    /// The part before the unit is no numeral, or is negative.
    InvalidNumber(String),
    /// The unit is none of `ms`, `s`, `m`, `h`, `hr`.
    UnknownUnit(String),
}

/// What a [`ParseError`] says, with its detail as a sequence of characters.
pub enum ParseFailure {
    InvalidFormat(Seq<char>),
    InvalidNumber(Seq<char>),
    UnknownUnit(Seq<char>),
}

impl ParseError {
    pub open spec fn failure(&self) -> ParseFailure {
        match self {
            ParseError::InvalidFormat(m) => ParseFailure::InvalidFormat(m@),
            ParseError::InvalidNumber(m) => ParseFailure::InvalidNumber(m@),
            ParseError::UnknownUnit(m) => ParseFailure::UnknownUnit(m@),
        }
    }
}

/// A parse result with its error seen through [`ParseError::failure`].
pub open spec fn outcome(r: Result<u64, ParseError>) -> Result<u64, ParseFailure> {
    match r {
        Ok(v) => Ok(v),
        Err(e) => Err(e.failure()),
    }
}

pub open spec fn empty_text_message() -> Seq<char> {
    "Empty duration string"@
}

pub open spec fn missing_unit_message() -> Seq<char> {
    "No unit specified"@
}

pub open spec fn negative_message() -> Seq<char> {
    "Duration cannot be negative"@
}

pub open spec fn is_digit(c: char) -> bool {
    48 <= (c as u32) <= 57
}

pub open spec fn digit_value(c: char) -> nat {
    ((c as u32) - 48) as nat
}

pub open spec fn all_digits(s: Seq<char>) -> bool {
    forall|i: int| 0 <= i < s.len() ==> is_digit(#[trigger] s[i])
}

pub open spec fn pow10(n: nat) -> nat
    decreases n,
{
    if n == 0 {
        1
    } else {
        10 * pow10((n - 1) as nat)
    }
}

/// The number that a run of decimal digits denotes.
pub open spec fn digits_value(s: Seq<char>) -> nat
    decreases s.len(),
{
    if s.len() == 0 {
        0
    } else {
        digits_value(s.drop_last()) * 10 + digit_value(s.last())
    }
}

/// The index of the first `'.'` in `s`, or its length where there is none.
pub open spec fn dot_index(s: Seq<char>) -> nat
    decreases s.len(),
{
    if s.len() == 0 {
        0
    } else if s[0] == '.' {
        0
    } else {
        1 + dot_index(s.drop_first())
    }
}

pub open spec fn has_sign(s: Seq<char>) -> bool {
    s.len() > 0 && (s[0] == '+' || s[0] == '-')
}

/// A numeral without its sign.
pub open spec fn unsigned_body(s: Seq<char>) -> Seq<char> {
    if has_sign(s) {
        s.drop_first()
    } else {
        s
    }
}

/// The digits before the point of an unsigned numeral.
pub open spec fn integral_digits(b: Seq<char>) -> Seq<char> {
    b.subrange(0, dot_index(b) as int)
}

/// The digits after the point of an unsigned numeral.
pub open spec fn fraction_digits(b: Seq<char>) -> Seq<char> {
    if dot_index(b) < b.len() {
        b.subrange(dot_index(b) + 1int, b.len() as int)
    } else {
        Seq::empty()
    }
}

/// A decimal numeral: an optional `+` or `-`, then digits with at most one
/// point among them, and at least one digit.
pub open spec fn is_numeral(s: Seq<char>) -> bool {
    let b = unsigned_body(s);
    &&& all_digits(integral_digits(b))
    &&& all_digits(fraction_digits(b))
    &&& integral_digits(b).len() + fraction_digits(b).len() > 0
}

/// All digits of a numeral, the point left out: the numeral's magnitude is
/// `mantissa(s) / 10^scale(s)`.
pub open spec fn mantissa(s: Seq<char>) -> nat {
    let b = unsigned_body(s);
    digits_value(integral_digits(b) + fraction_digits(b))
}

pub open spec fn scale(s: Seq<char>) -> nat {
    fraction_digits(unsigned_body(s)).len()
}

/// A numeral below zero: `-` and a magnitude that is not zero.
pub open spec fn is_negative(s: Seq<char>) -> bool {
    s.len() > 0 && s[0] == '-' && mantissa(s) > 0
}

/// Milliseconds per unit.
pub open spec fn unit_factor(u: Seq<char>) -> Option<nat> {
    if u == seq!['m', 's'] {
        Some(1)
    } else if u == seq!['s'] {
        Some(1000)
    } else if u == seq!['m'] {
        Some(60000)
    } else if u == seq!['h'] || u == seq!['h', 'r'] {
        Some(3600000)
    } else {
        None
    }
}

/// The magnitude of the numeral times `factor`, truncated toward zero and
/// capped at `u64::MAX`.
pub open spec fn truncated_product(s: Seq<char>, factor: nat) -> u64 {
    let v = factor * mantissa(s) / pow10(scale(s));
    if v > u64::MAX {
        u64::MAX
    } else {
        v as u64
    }
}

/// The result for a numeral and a unit, split apart already.
pub open spec fn parts_outcome(number: Seq<char>, unit: Seq<char>) -> Result<u64, ParseFailure> {
    if !is_numeral(number) {
        Err(ParseFailure::InvalidNumber(number))
    } else if is_negative(number) {
        Err(ParseFailure::InvalidNumber(negative_message()))
    } else {
        match unit_factor(unit) {
            None => Err(ParseFailure::UnknownUnit(unit)),
            Some(f) => Ok(truncated_product(number, f)),
        }
    }
}

/// The index of the first alphabetic character of `s`, or its length where
/// there is none.
pub open spec fn first_alphabetic(s: Seq<char>) -> nat
    decreases s.len(),
{
    if s.len() == 0 {
        0
    } else if alphabetic(s[0]) {
        0
    } else {
        1 + first_alphabetic(s.drop_first())
    }
}

/// The result for a text that is trimmed and lowercased already: empty, or
/// without any alphabetic character, it is refused as such; otherwise what
/// comes before its first alphabetic character is the numeral, possibly
/// empty, and the rest is the unit.
pub open spec fn normalized_outcome(t: Seq<char>) -> Result<u64, ParseFailure> {
    let p = first_alphabetic(t);
    if t.len() == 0 {
        Err(ParseFailure::InvalidFormat(empty_text_message()))
    } else if p == t.len() {
        Err(ParseFailure::InvalidFormat(missing_unit_message()))
    } else {
        parts_outcome(t.subrange(0, p as int), t.subrange(p as int, t.len() as int))
    }
}

/// The result of [`parse_duration`] on `text`.
pub open spec fn duration_outcome(text: Seq<char>) -> Result<u64, ParseFailure> {
    normalized_outcome(lower_of(trim_ws(text)))
}

proof fn lemma_pow10_positive(n: nat)
    ensures
        pow10(n) >= 1,
    decreases n,
{
    if n > 0 {
        lemma_pow10_positive((n - 1) as nat);
    }
}

proof fn lemma_digits_concat(a: Seq<char>, b: Seq<char>)
    ensures
        digits_value(a + b) == digits_value(a) * pow10(b.len()) + digits_value(b),
    decreases b.len(),
{
    if b.len() == 0 {
        assert(a + b =~= a);
        assert(pow10(0) == 1);
        assert(digits_value(b) == 0);
    } else {
        let bp = b.drop_last();
        assert((a + b).drop_last() =~= a + bp);
        assert((a + b).last() == b.last());
        lemma_digits_concat(a, bp);
        let x = digits_value(a);
        let p = pow10(bp.len());
        let y = digits_value(bp);
        let d = digit_value(b.last());
        assert(pow10(b.len()) == 10 * p);
        assert(digits_value(a + b) == digits_value(a + bp) * 10 + d);
        assert(digits_value(b) == y * 10 + d);
        assert((x * p + y) * 10 + d == x * (10 * p) + (y * 10 + d)) by (nonlinear_arith);
    }
}

proof fn lemma_digits_bound(s: Seq<char>)
    requires
        all_digits(s),
    ensures
        digits_value(s) < pow10(s.len()),
    decreases s.len(),
{
    if s.len() > 0 {
        let sp = s.drop_last();
        assert(all_digits(sp)) by {
            assert forall|i: int| 0 <= i < sp.len() implies is_digit(#[trigger] sp[i]) by {
                assert(sp[i] == s[i]);
            }
        }
        lemma_digits_bound(sp);
        assert(is_digit(s[s.len() - 1]));
        let y = digits_value(sp);
        let p = pow10(sp.len());
        assert(y + 1 <= p);
        assert(y * 10 + 10 <= p * 10) by (nonlinear_arith)
            requires
                y + 1 <= p,
        ;
    }
}

proof fn lemma_digits_positive(s: Seq<char>)
    requires
        all_digits(s),
    ensures
        digits_value(s) > 0 <==> exists|i: int| 0 <= i < s.len() && s[i] as u32 != 48,
    decreases s.len(),
{
    if s.len() > 0 {
        let sp = s.drop_last();
        assert(all_digits(sp)) by {
            assert forall|i: int| 0 <= i < sp.len() implies is_digit(#[trigger] sp[i]) by {
                assert(sp[i] == s[i]);
            }
        }
        lemma_digits_positive(sp);
        let last = s[s.len() - 1];
        assert(is_digit(last));
        assert(digits_value(s) == digits_value(sp) * 10 + digit_value(last));
        assert(digit_value(last) > 0 <==> last as u32 != 48);
        if exists|i: int| 0 <= i < sp.len() && sp[i] as u32 != 48 {
            let i = choose|i: int| 0 <= i < sp.len() && sp[i] as u32 != 48;
            assert(s[i] as u32 != 48);
        }
        if exists|i: int| 0 <= i < s.len() && s[i] as u32 != 48 {
            let i = choose|i: int| 0 <= i < s.len() && s[i] as u32 != 48;
            if i < s.len() - 1 {
                assert(sp[i] as u32 != 48);
            }
        }
    }
}

/// One step of reading a fraction from its last digit backward: the scaled
/// value of `c` followed by `r` comes from the scaled value of `r`.
proof fn lemma_fraction_step(factor: nat, c: char, r: Seq<char>)
    ensures
        factor * digits_value(seq![c] + r) / pow10(r.len() + 1) == (factor * digit_value(c)
            + factor * digits_value(r) / pow10(r.len())) / 10,
{
    let p = pow10(r.len());
    lemma_pow10_positive(r.len());
    lemma_digits_concat(seq![c], r);
    assert(seq![c].drop_last() =~= Seq::<char>::empty());
    assert(digits_value(Seq::<char>::empty()) == 0);
    assert(digits_value(seq![c]) == digit_value(c));
    let x = factor * digits_value(r);
    let j = factor * digit_value(c);
    assert(factor * digits_value(seq![c] + r) == x + j * p) by (nonlinear_arith)
        requires
            digits_value(seq![c] + r) == digit_value(c) * p + digits_value(r),
            x == factor * digits_value(r),
            j == factor * digit_value(c),
    ;
    lemma_hoist_over_denominator(x as int, j as int, p);
    assert(pow10(r.len() + 1) == p * 10) by {
        assert(pow10(r.len() + 1) == 10 * pow10(r.len()));
    }
    lemma_div_denominator((x + j * p) as int, p as int, 10);
}

/// The numeral's magnitude times `factor` splits into the integral digits
/// times `factor` and the scaled fraction.
proof fn lemma_product_split(s: Seq<char>, factor: nat)
    ensures
        factor * mantissa(s) / pow10(scale(s)) == factor * digits_value(
            integral_digits(unsigned_body(s)),
        ) + factor * digits_value(fraction_digits(unsigned_body(s))) / pow10(scale(s)),
{
    let b = unsigned_body(s);
    let i = digits_value(integral_digits(b));
    let f = digits_value(fraction_digits(b));
    let p = pow10(scale(s));
    lemma_pow10_positive(scale(s));
    lemma_digits_concat(integral_digits(b), fraction_digits(b));
    assert(factor * mantissa(s) == factor * f + (factor * i) * p) by (nonlinear_arith)
        requires
            mantissa(s) == i * p + f,
    ;
    lemma_hoist_over_denominator((factor * f) as int, (factor * i) as int, p);
}

proof fn lemma_dot_index(s: Seq<char>)
    ensures
        dot_index(s) <= s.len(),
        forall|k: int| 0 <= k < dot_index(s) ==> s[k] != '.',
        dot_index(s) < s.len() ==> s[dot_index(s) as int] == '.',
    decreases s.len(),
{
    if s.len() > 0 && s[0] != '.' {
        lemma_dot_index(s.drop_first());
        assert forall|k: int| 0 <= k < dot_index(s) implies s[k] != '.' by {
            if k > 0 {
                assert(s[k] == s.drop_first()[k - 1]);
            }
        }
    }
}

proof fn lemma_first_alphabetic(s: Seq<char>)
    ensures
        first_alphabetic(s) <= s.len(),
        forall|k: int| 0 <= k < first_alphabetic(s) ==> !alphabetic(s[k]),
        first_alphabetic(s) < s.len() ==> alphabetic(s[first_alphabetic(s) as int]),
    decreases s.len(),
{
    if s.len() > 0 && !alphabetic(s[0]) {
        lemma_first_alphabetic(s.drop_first());
        assert forall|k: int| 0 <= k < first_alphabetic(s) implies !alphabetic(s[k]) by {
            if k > 0 {
                assert(s[k] == s.drop_first()[k - 1]);
            }
        }
    }
}

/// Index of the first `'.'` of `s`, or its length.
fn find_dot(s: &str) -> (r: usize)
    ensures
        r == dot_index(s@),
{
    let n = s.unicode_len();
    let mut i: usize = 0;
    while i < n && s.get_char(i) != '.'
        invariant
            n == s@.len(),
            i <= n,
            forall|k: int| 0 <= k < i ==> s@[k] != '.',
        decreases n - i,
    {
        i = i + 1;
    }
    proof {
        lemma_dot_index(s@);
        if dot_index(s@) < i {
            assert(s@[dot_index(s@) as int] == '.');
        }
        if (i as nat) < dot_index(s@) {
            assert(s@[i as int] != '.');
        }
    }
    i
}

/// Index of the first alphabetic character of `s`, or its length.
fn find_alphabetic(s: &str) -> (r: usize)
    ensures
        r == first_alphabetic(s@),
{
    let n = s.unicode_len();
    let mut i: usize = 0;
    while i < n && !is_alpha(s.get_char(i))
        invariant
            n == s@.len(),
            i <= n,
            forall|k: int| 0 <= k < i ==> !alphabetic(s@[k]),
        decreases n - i,
    {
        i = i + 1;
    }
    proof {
        lemma_first_alphabetic(s@);
        if first_alphabetic(s@) < i {
            assert(alphabetic(s@[first_alphabetic(s@) as int]));
        }
        if (i as nat) < first_alphabetic(s@) {
            assert(!alphabetic(s@[i as int]));
        }
    }
    i
}

fn is_digit_char(c: char) -> (r: bool)
    ensures
        r == is_digit(c),
{
    let n = c as u32;
    48 <= n && n <= 57
}

/// Whether every character of `s` from `from` up to `to` is a digit.
fn digits_between(s: &str, from: usize, to: usize) -> (r: bool)
    requires
        from <= to <= s@.len(),
    ensures
        r == all_digits(s@.subrange(from as int, to as int)),
{
    let mut i = from;
    while i < to
        invariant
            from <= i <= to <= s@.len(),
            forall|k: int| from <= k < i ==> is_digit(#[trigger] s@[k]),
        decreases to - i,
    {
        if !is_digit_char(s.get_char(i)) {
            assert(s@.subrange(from as int, to as int)[i - from] == s@[i as int]);
            return false;
        }
        i = i + 1;
    }
    assert forall|k: int| 0 <= k < to - from implies is_digit(
        #[trigger] s@.subrange(from as int, to as int)[k],
    ) by {
        assert(s@.subrange(from as int, to as int)[k] == s@[from + k]);
    }
    true
}

/// Whether some character of `s` from `from` up to `to` is not `'0'`.
fn nonzero_between(s: &str, from: usize, to: usize) -> (r: bool)
    requires
        from <= to <= s@.len(),
    ensures
        r == exists|k: int|
            0 <= k < to - from && s@.subrange(from as int, to as int)[k] as u32 != 48,
{
    let ghost sub = s@.subrange(from as int, to as int);
    let mut i = from;
    while i < to
        invariant
            from <= i <= to <= s@.len(),
            sub == s@.subrange(from as int, to as int),
            forall|k: int| from <= k < i ==> s@[k] as u32 == 48,
        decreases to - i,
    {
        if s.get_char(i) as u32 != 48 {
            assert(sub[i - from] as u32 != 48);
            return true;
        }
        i = i + 1;
    }
    assert forall|k: int| 0 <= k < to - from implies sub[k] as u32 == 48 by {
        assert(sub[k] == s@[from + k]);
    }
    false
}

/// The value of the digits of `s` from `from` up to `to`, with `true` in
/// place of it where it exceeds `u64::MAX`.
fn integral_value(s: &str, from: usize, to: usize) -> (r: (u64, bool))
    requires
        from <= to <= s@.len(),
        all_digits(s@.subrange(from as int, to as int)),
    ensures
        r.1 ==> digits_value(s@.subrange(from as int, to as int)) > u64::MAX,
        !r.1 ==> r.0 == digits_value(s@.subrange(from as int, to as int)),
{
    let mut acc: u64 = 0;
    let mut over = false;
    let mut i = from;
    while i < to
        invariant
            from <= i <= to <= s@.len(),
            all_digits(s@.subrange(from as int, to as int)),
            over ==> digits_value(s@.subrange(from as int, i as int)) > u64::MAX,
            !over ==> acc == digits_value(s@.subrange(from as int, i as int)),
        decreases to - i,
    {
        let c = s.get_char(i);
        let ghost prev = s@.subrange(from as int, i as int);
        let ghost next = s@.subrange(from as int, i + 1);
        assert(next.drop_last() =~= prev);
        assert(next.last() == c);
        assert(s@.subrange(from as int, to as int)[i - from] == c);
        assert(is_digit(c));
        let d = (c as u32 - 48) as u64;
        if !over {
            if acc > (u64::MAX - d) / 10 {
                over = true;
            } else {
                acc = acc * 10 + d;
            }
        }
    i = i + 1;
    }
    (acc, over)
}

/// `factor` times the fraction `0.d...` written by the digits of `s` from
/// `from` up to `to`, truncated toward zero.
fn fraction_scaled(s: &str, from: usize, to: usize, factor: u64) -> (r: u64)
    requires
        from <= to <= s@.len(),
        all_digits(s@.subrange(from as int, to as int)),
        1 <= factor <= 3600000,
    ensures
        r == (factor as nat) * digits_value(s@.subrange(from as int, to as int)) / pow10(
            (to - from) as nat,
        ),
{
    let mut carry: u64 = 0;
    let mut j = to;
    proof {
        assert(s@.subrange(to as int, to as int) =~= Seq::<char>::empty());
        assert(digits_value(Seq::<char>::empty()) == 0);
        assert(pow10(0) == 1);
    }
    while j > from
        invariant
            from <= j <= to <= s@.len(),
            all_digits(s@.subrange(from as int, to as int)),
            1 <= factor <= 3600000,
            carry == (factor as nat) * digits_value(s@.subrange(j as int, to as int)) / pow10(
                (to - j) as nat,
            ),
            carry < factor,
        decreases j,
    {
        let c = s.get_char(j - 1);
        let ghost rest = s@.subrange(j as int, to as int);
        assert(s@.subrange(from as int, to as int)[j - 1 - from] == c);
        assert(is_digit(c));
        let d = (c as u32 - 48) as u64;
        proof {
            assert(s@.subrange(j - 1, to as int) =~= seq![c] + rest);
            lemma_fraction_step(factor as nat, c, rest);
            assert(all_digits(seq![c] + rest)) by {
                assert forall|k: int| 0 <= k < rest.len() + 1 implies is_digit(
                    #[trigger] (seq![c] + rest)[k],
                ) by {
                    assert((seq![c] + rest)[k] == s@.subrange(from as int, to as int)[j - 1 - from
                        + k]);
                }
            }
            lemma_digits_bound(seq![c] + rest);
            lemma_pow10_positive(rest.len() + 1);
            let v = digits_value(seq![c] + rest) as int;
            let p = pow10(rest.len() + 1) as int;
            let f = factor as int;
            assert(f * v / p < f) by (nonlinear_arith)
                requires
                    v < p,
                    p >= 1,
                    f >= 1,
            {
                assert(f * v < f * p);
            }
            assert(factor * d + carry < 10 * 3600000) by (nonlinear_arith)
                requires
                    d <= 9,
                    carry < factor,
                    factor <= 3600000,
            ;
        }
        carry = (factor * d + carry) / 10;
        j = j - 1;
    }
    carry
}

/// Milliseconds per unit, for the units `ms`, `s`, `m`, `h` and `hr`.
fn factor_of_unit(unit: &str) -> (r: Option<u64>)
    ensures
        r matches Some(f) ==> unit_factor(unit@) == Some(f as nat),
        r is None ==> unit_factor(unit@) is None,
{
    let n = unit.unicode_len();
    if n == 1 {
        let c = unit.get_char(0);
        proof {
            assert(unit@ == seq![c]) by {
                assert(unit@ =~= seq![c]);
            }
        }
        if c == 's' {
            Some(1000)
        } else if c == 'm' {
            Some(60000)
        } else if c == 'h' {
            Some(3600000)
        } else {
            None
        }
    } else if n == 2 {
        let c0 = unit.get_char(0);
        let c1 = unit.get_char(1);
        proof {
            assert(unit@ =~= seq![c0, c1]);
        }
        if c0 == 'm' && c1 == 's' {
            Some(1)
        } else if c0 == 'h' && c1 == 'r' {
            Some(3600000)
        } else {
            None
        }
    } else {
        proof {
            assert(seq!['m', 's'].len() == 2);
            assert(seq!['h', 'r'].len() == 2);
        }
        None
    }
}

proof fn lemma_mantissa_positive(x: Seq<char>, y: Seq<char>)
    requires
        all_digits(x),
        all_digits(y),
    ensures
        digits_value(x + y) > 0 <==> (exists|k: int| 0 <= k < x.len() && x[k] as u32 != 48) || (
        exists|k: int| 0 <= k < y.len() && y[k] as u32 != 48),
{
    let xy = x + y;
    assert(all_digits(xy)) by {
        assert forall|i: int| 0 <= i < xy.len() implies is_digit(#[trigger] xy[i]) by {
            if i < x.len() {
                assert(xy[i] == x[i]);
            } else {
                assert(xy[i] == y[i - x.len()]);
            }
        }
    }
    lemma_digits_positive(xy);
    if exists|k: int| 0 <= k < xy.len() && xy[k] as u32 != 48 {
        let k = choose|k: int| 0 <= k < xy.len() && xy[k] as u32 != 48;
        if k < x.len() {
            assert(xy[k] == x[k]);
        } else {
            assert(xy[k] == y[k - x.len()]);
        }
    }
    if exists|k: int| 0 <= k < x.len() && x[k] as u32 != 48 {
        let k = choose|k: int| 0 <= k < x.len() && x[k] as u32 != 48;
        assert(xy[k] == x[k]);
    }
    if exists|k: int| 0 <= k < y.len() && y[k] as u32 != 48 {
        let k = choose|k: int| 0 <= k < y.len() && y[k] as u32 != 48;
        assert(xy[k + x.len()] == y[k]);
    }
}

/// A valid duration text is read as its value: a text made of a numeral that
/// is not negative, with no alphabetic character in it, followed by a known
/// unit, gives the numeral's magnitude times the unit's factor, truncated
/// toward zero and capped at `u64::MAX`.
pub proof fn lemma_valid_text_value(number: Seq<char>, unit: Seq<char>)
    requires
        is_numeral(number),
        !is_negative(number),
        forall|i: int| 0 <= i < number.len() ==> !alphabetic(#[trigger] number[i]),
        unit.len() > 0,
        alphabetic(unit[0]),
        unit_factor(unit) is Some,
    ensures
        normalized_outcome(number + unit) == Ok::<u64, ParseFailure>(
            truncated_product(number, unit_factor(unit)->Some_0),
        ),
        truncated_product(number, unit_factor(unit)->Some_0) == (if unit_factor(unit)->Some_0
            * mantissa(number) / pow10(scale(number)) > u64::MAX {
            u64::MAX
        } else {
            (unit_factor(unit)->Some_0 * mantissa(number) / pow10(scale(number))) as u64
        }),
{
    let t = number + unit;
    lemma_first_alphabetic(t);
    let p = first_alphabetic(t);
    assert(t[number.len() as int] == unit[0]);
    if p < number.len() {
        assert(t[p as int] == number[p as int]);
    }
    assert(p == number.len());
    let b = unsigned_body(number);
    assert(number.len() > 0) by {
        if number.len() == 0 {
            assert(b.len() == 0);
            assert(integral_digits(b).len() == 0);
            assert(fraction_digits(b).len() == 0);
        }
    }
    assert(t.subrange(0, p as int) =~= number);
    assert(t.subrange(p as int, t.len() as int) =~= unit);
}

/// Reads a numeral and a unit that are split apart already: the numeral is
/// checked first, then its sign, then the unit.
pub fn duration_from_parts(number: &str, unit: &str) -> (r: Result<u64, ParseError>)
    ensures
        outcome(r) == parts_outcome(number@, unit@),
{
    let len = number.unicode_len();
    let signed = len > 0 && (number.get_char(0) == '+' || number.get_char(0) == '-');
    let minus = len > 0 && number.get_char(0) == '-';
    let body: &str = if signed {
        number.substring_char(1, len)
    } else {
        number
    };
    proof {
        if signed {
            assert(number@.drop_first() =~= number@.subrange(1, len as int));
        }
        assert(body@ == unsigned_body(number@));
    }
    let blen = body.unicode_len();
    let dot = find_dot(body);
    proof {
        lemma_dot_index(body@);
    }
    let frac_from: usize = if dot < blen {
        dot + 1
    } else {
        blen
    };
    let ghost integral = integral_digits(body@);
    let ghost fraction = fraction_digits(body@);
    proof {
        assert(integral == body@.subrange(0, dot as int));
        assert(fraction =~= body@.subrange(frac_from as int, blen as int));
    }
    let int_ok = digits_between(body, 0, dot);
    let frac_ok = digits_between(body, frac_from, blen);
    if !(int_ok && frac_ok && (dot > 0 || frac_from < blen)) {
        return Err(ParseError::InvalidNumber(String::from_str(number)));
    }
    let int_nonzero = nonzero_between(body, 0, dot);
    let frac_nonzero = nonzero_between(body, frac_from, blen);
    proof {
        lemma_mantissa_positive(integral, fraction);
    }
    if minus && (int_nonzero || frac_nonzero) {
        return Err(ParseError::InvalidNumber(String::from_str("Duration cannot be negative")));
    }
    let factor = match factor_of_unit(unit) {
        None => {
            return Err(ParseError::UnknownUnit(String::from_str(unit)));
        },
        Some(f) => f,
    };
    proof {
        lemma_product_split(number@, factor as nat);
    }
    let (int_value, over) = integral_value(body, 0, dot);
    if over {
        proof {
            let i = digits_value(integral);
            let f = factor as nat;
            assert(f * i >= i) by (nonlinear_arith)
                requires
                    f >= 1,
            ;
            assert(i > u64::MAX);
            let q = f * digits_value(fraction) / pow10(scale(number@));
            assert(f * mantissa(number@) / pow10(scale(number@)) == f * i + q);
            lemma_pow10_positive(scale(number@));
            assert(q >= 0) by (nonlinear_arith)
                requires
                    q == f * digits_value(fraction) / pow10(scale(number@)),
                    pow10(scale(number@)) >= 1,
            ;
            assert(f * i + q > u64::MAX);
        }
        return Ok(u64::MAX);
    }
    let frac = fraction_scaled(body, frac_from, blen, factor);
    proof {
        assert(factor as u128 * int_value as u128 <= 3600000 * 0xffff_ffff_ffff_ffffu128)
            by (nonlinear_arith)
            requires
                factor <= 3600000,
                int_value <= 0xffff_ffff_ffff_ffffu64,
        ;
    }
    let total: u128 = factor as u128 * int_value as u128 + frac as u128;
    if total > u64::MAX as u128 {
        Ok(u64::MAX)
    } else {
        Ok(total as u64)
    }
}

/// Reads a duration text that is trimmed and lowercased already: it is split
/// at its first alphabetic character. A text that starts with one has an
/// empty numeral, which is no number.
pub fn parse_normalized(text: &str) -> (r: Result<u64, ParseError>)
    ensures
        outcome(r) == normalized_outcome(text@),
{
    let n = text.unicode_len();
    if n == 0 {
        return Err(ParseError::InvalidFormat(String::from_str("Empty duration string")));
    }
    let p = find_alphabetic(text);
    proof {
        lemma_first_alphabetic(text@);
    }
    if p == n {
        return Err(ParseError::InvalidFormat(String::from_str("No unit specified")));
    }
    let number = text.substring_char(0, p);
    let unit = text.substring_char(p, n);
    duration_from_parts(number, unit)
}

/// Parses a duration text such as `"100ms"`, `"2.5s"`, `"1m"` or `"1.5hr"`
/// into milliseconds. Surrounding white space and letter case are ignored.
pub fn parse_duration(duration_str: &str) -> (r: Result<u64, ParseError>)
    ensures
        outcome(r) == duration_outcome(duration_str@),
{
    let trimmed = trim_text(duration_str);
    let lowered = lowercase(trimmed);
    parse_normalized(lowered.as_str())
}

} // verus!
