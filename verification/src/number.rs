//! Numbers as they are written: the floating-point literals that are accepted,
//! and unsigned decimals.

use crate::text::{
    ascii_lower, ascii_lower_char, chars_of, digit, is_digit, part, same_ignoring_case,
};
use vstd::arithmetic::power::{lemma_pow0, lemma_pow1, lemma_pow_adds, lemma_pow_positive, pow};
use vstd::prelude::*;

verus! {

// ─── Floating-point literals ─────────────────────────────────────────────────

/// How many digits `s` begins with.
pub open spec fn digit_run(s: Seq<char>) -> nat
    decreases s.len(),
{
    if s.len() == 0 || !is_digit(s[0]) {
        0
    } else {
        1 + digit_run(s.skip(1))
    }
}

/// `s` without one leading sign.
pub open spec fn without_sign(s: Seq<char>) -> Seq<char> {
    if s.len() > 0 && (s[0] == '+' || s[0] == '-') {
        s.skip(1)
    } else {
        s
    }
}

/// An exponent: `e` or `E`, an optional sign, and at least one digit.
pub open spec fn is_exponent(s: Seq<char>) -> bool {
    &&& s.len() > 0
    &&& s[0] == 'e' || s[0] == 'E'
    &&& without_sign(s.skip(1)).len() > 0
    &&& digit_run(without_sign(s.skip(1))) == without_sign(s.skip(1)).len()
}

/// Whether what follows a mantissa is nothing or an exponent.
pub open spec fn ends_number(s: Seq<char>) -> bool {
    s.len() == 0 || is_exponent(s)
}

/// An unsigned number: digits with at most one point among or around them (at
/// least one digit in all), and an optional exponent.
pub open spec fn is_unsigned_number(s: Seq<char>) -> bool {
    let whole = digit_run(s);
    if whole < s.len() && s[whole as int] == '.' {
        let rest = s.skip(whole as int + 1);
        let fraction = digit_run(rest);
        whole + fraction > 0 && ends_number(rest.skip(fraction as int))
    } else {
        whole > 0 && ends_number(s.skip(whole as int))
    }
}

/// The texts that are read as a floating-point number: an optional sign, then
/// `inf`, `infinity` or `nan` in any case, or an unsigned number.
pub open spec fn is_float(s: Seq<char>) -> bool {
    let u = without_sign(s);
    ||| ascii_lower(u) == "inf"@
    ||| ascii_lower(u) == "infinity"@
    ||| ascii_lower(u) == "nan"@
    ||| is_unsigned_number(u)
}

/// A run of digits is bounded by the text, made of digits, and maximal.
pub proof fn lemma_digit_run(s: Seq<char>)
    ensures
        digit_run(s) <= s.len(),
        forall|i: int| 0 <= i < digit_run(s) ==> is_digit(s[i]),
        digit_run(s) < s.len() ==> !is_digit(s[digit_run(s) as int]),
    decreases s.len(),
{
    if s.len() > 0 && is_digit(s[0]) {
        lemma_digit_run(s.skip(1));
        assert forall|i: int| 0 <= i < digit_run(s) implies is_digit(s[i]) by {
            if i > 0 {
                assert(s[i] == s.skip(1)[i - 1]);
            }
        }
    }
}

/// Digits, a point and one more digit are a number.
pub proof fn lemma_plain_number(s: Seq<char>, n: int)
    requires
        n >= 1,
        s.len() == n + 2,
        forall|i: int| 0 <= i < n ==> is_digit(#[trigger] s[i]),
        s[n] == '.',
        is_digit(s[n + 1]),
    ensures
        is_float(s),
{
    lemma_digit_run(s);
    let whole = digit_run(s) as int;
    if whole < n {
        assert(is_digit(s[whole]));
    }
    if whole > n {
        assert(is_digit(s[n]));
    }
    let rest = s.skip(n + 1);
    assert(rest.len() == 1 && rest[0] == s[n + 1]);
    lemma_digit_run(rest);
    let fraction = digit_run(rest);
    if fraction == 0 {
        assert(!is_digit(rest[0]));
    }
    assert(rest.skip(fraction as int).len() == 0);
    assert(is_digit(s[0]));
    assert(without_sign(s) == s);
}

/// A run of digits ends at the first character that is none.
pub proof fn lemma_digit_run_is(s: Seq<char>, n: nat)
    requires
        n <= s.len(),
        forall|i: int| 0 <= i < n ==> is_digit(s[i]),
        n < s.len() ==> !is_digit(s[n as int]),
    ensures
        digit_run(s) == n,
{
    lemma_digit_run(s);
    let m = digit_run(s);
    if m < n {
        assert(is_digit(s[m as int]));
    } else if n < m {
        assert(is_digit(s[n as int]));
    }
}

/// How many digits `v` has from position `i` on.
fn count_digits(v: &Vec<char>, i: usize) -> (n: usize)
    requires
        i <= v.len(),
    ensures
        n == digit_run(v@.skip(i as int)),
        i + n <= v.len(),
{
    let mut k: usize = i;
    while k < v.len() && digit(v[k])
        invariant
            i <= k <= v.len(),
            forall|j: int| i <= j < k ==> is_digit(v@[j]),
        decreases v.len() - k,
    {
        k += 1;
    }
    proof {
        lemma_digit_run_is(v@.skip(i as int), (k - i) as nat);
    }
    k - i
}

/// The position after an optional sign at `i`.
fn after_sign(v: &Vec<char>, i: usize) -> (n: usize)
    requires
        i <= v.len(),
    ensures
        i <= n <= v.len(),
        v@.skip(n as int) == without_sign(v@.skip(i as int)),
{
    if i < v.len() && (v[i] == '+' || v[i] == '-') {
        assert(v@.skip(i as int).skip(1) == v@.skip(i + 1));
        i + 1
    } else {
        i
    }
}

/// Whether what stands from `i` on is nothing or an exponent.
fn at_number_end(v: &Vec<char>, i: usize) -> (r: bool)
    requires
        i <= v.len(),
    ensures
        r == ends_number(v@.skip(i as int)),
{
    if i == v.len() {
        return true;
    }
    if v[i] != 'e' && v[i] != 'E' {
        return false;
    }
    let k = after_sign(v, i + 1);
    assert(v@.skip(i as int).skip(1) == v@.skip(i + 1));
    let n = count_digits(v, k);
    k < v.len() && n == v.len() - k
}

/// Whether `v` is read as a floating-point number.
pub fn reads_as_float(v: &Vec<char>) -> (r: bool)
    ensures
        r == is_float(v@),
{
    assert(v@.skip(0) == v@);
    let start = after_sign(v, 0);
    let ghost u = without_sign(v@);
    let body = part(v, start, v.len());
    assert(body@ == u);
    let inf = chars_of("inf");
    let infinity = chars_of("infinity");
    let nan = chars_of("nan");
    proof {
        reveal_strlit("inf");
        reveal_strlit("infinity");
        reveal_strlit("nan");
        assert(ascii_lower("inf"@) == "inf"@);
        assert(ascii_lower("infinity"@) == "infinity"@);
        assert(ascii_lower("nan"@) == "nan"@);
    }
    if same_ignoring_case(&body, &inf) || same_ignoring_case(&body, &infinity)
        || same_ignoring_case(&body, &nan) {
        return true;
    }
    let whole = count_digits(v, start);
    let point = start + whole;
    assert(u.skip(whole as int) == v@.skip(point as int));
    if point < v.len() && v[point] == '.' {
        assert(u.skip(whole + 1) == v@.skip(point + 1));
        let fraction = count_digits(v, point + 1);
        assert(v@.skip(point + 1).skip(fraction as int) == v@.skip(point + 1 + fraction));
        (whole > 0 || fraction > 0) && at_number_end(v, point + 1 + fraction)
    } else {
        whole > 0 && at_number_end(v, point)
    }
}

// ─── Unsigned decimals ───────────────────────────────────────────────────────

/// The digit that a number below ten is written with.
pub open spec fn digit_char(d: int) -> char {
    (d + 48) as char
}

/// The number that a text of digits stands for.
pub open spec fn digits_value(s: Seq<char>) -> nat
    decreases s.len(),
{
    if s.len() == 0 {
        0
    } else {
        (digits_value(s.drop_last()) * 10 + (s.last() as int - 48)) as nat
    }
}

/// Whether `s` is not empty and made of digits.
pub open spec fn all_digits(s: Seq<char>) -> bool {
    s.len() > 0 && forall|i: int| 0 <= i < s.len() ==> is_digit(s[i])
}

/// `s` without one leading plus sign.
pub open spec fn without_plus(s: Seq<char>) -> Seq<char> {
    if s.len() > 0 && s[0] == '+' {
        s.skip(1)
    } else {
        s
    }
}

/// The 32-bit number that `s` is read as: an optional plus sign and digits.
pub open spec fn parsed_u32(s: Seq<char>) -> Option<u32> {
    let d = without_plus(s);
    if all_digits(d) && digits_value(d) <= u32::MAX {
        Some(digits_value(d) as u32)
    } else {
        None
    }
}

/// A number as decimal digits, without leading zeros.
pub open spec fn decimal(n: nat) -> Seq<char>
    decreases n,
{
    if n < 10 {
        seq![digit_char(n as int)]
    } else {
        decimal(n / 10).push(digit_char((n % 10) as int))
    }
}

/// `s` with zeros put before it up to the given width.
pub open spec fn zero_padded(s: Seq<char>, width: nat) -> Seq<char>
    decreases width - s.len(),
{
    if s.len() >= width {
        s
    } else {
        zero_padded(seq!['0'] + s, width)
    }
}

/// The 32-bit number that `v` is read as.
pub fn parse_u32(v: &Vec<char>) -> (r: Option<u32>)
    ensures
        r == parsed_u32(v@),
{
    let start: usize = if v.len() > 0 && v[0] == '+' {
        1
    } else {
        0
    };
    let ghost d = without_plus(v@);
    assert(d == v@.skip(start as int));
    if start == v.len() {
        return None;
    }
    let mut n: u64 = 0;
    let mut fits: bool = true;
    let mut i: usize = start;
    while i < v.len()
        invariant
            start <= i <= v.len(),
            d == v@.skip(start as int),
            d == without_plus(v@),
            forall|k: int| 0 <= k < i - start ==> is_digit(d[k]),
            fits ==> n == digits_value(d.take(i - start)) && n <= u32::MAX,
            !fits ==> digits_value(d.take(i - start)) > u32::MAX,
        decreases v.len() - i,
    {
        if !digit(v[i]) {
            assert(!is_digit(d[i - start]));
            return None;
        }
        let x: u64 = v[i] as u64 - 48;
        proof {
            assert(v@[i as int] == d[i - start]);
            assert(d.take(i - start + 1).drop_last() == d.take(i - start));
            assert(d.take(i - start + 1).last() == v@[i as int]);
            assert(digits_value(d.take(i - start + 1)) == digits_value(d.take(i - start)) * 10 + x);
        }
        if fits {
            let m: u64 = n * 10 + x;
            if m <= 0xffff_ffff {
                n = m;
            } else {
                fits = false;
            }
        }
        i += 1;
    }
    assert(d.take(i - start) == d);
    if fits {
        Some(n as u32)
    } else {
        None
    }
}

/// A number as decimal digits.
pub fn write_decimal(n: u64) -> (r: Vec<char>)
    ensures
        r@ == decimal(n as nat),
    decreases n,
{
    let d: u8 = 48 + (n % 10) as u8;
    let mut r: Vec<char> = if n < 10 {
        Vec::new()
    } else {
        write_decimal(n / 10)
    };
    r.push(d as char);
    r
}

/// A number as decimal digits, with zeros put before it up to the given width.
pub fn write_padded(n: u64, width: usize) -> (r: Vec<char>)
    ensures
        r@ == zero_padded(decimal(n as nat), width as nat),
{
    let mut r: Vec<char> = write_decimal(n);
    while r.len() < width
        invariant
            zero_padded(r@, width as nat) == zero_padded(decimal(n as nat), width as nat),
        decreases width - r.len(),
    {
        assert(r@.insert(0, '0') == seq!['0'] + r@);
        r.insert(0, '0');
    }
    r
}

/// What is written as decimal digits is read back as the same number.
pub proof fn law_decimal_reads_back(n: nat)
    ensures
        all_digits(decimal(n)),
        digits_value(decimal(n)) == n,
    decreases n,
{
    if n >= 10 {
        law_decimal_reads_back(n / 10);
        let s = decimal(n / 10);
        let c = digit_char((n % 10) as int);
        assert(s.push(c).drop_last() == s);
        assert forall|i: int| 0 <= i < s.push(c).len() implies is_digit(s.push(c)[i]) by {}
    } else {
        let s = decimal(n);
        assert(s.drop_last() == Seq::<char>::empty());
        assert(digits_value(s.drop_last()) == 0);
    }
}

/// A zero put before a text of digits does not change its number.
proof fn lemma_leading_zero(s: Seq<char>)
    ensures
        digits_value(seq!['0'] + s) == digits_value(s),
    decreases s.len(),
{
    let z = seq!['0'] + s;
    if s.len() > 0 {
        lemma_leading_zero(s.drop_last());
        assert(z.drop_last() == seq!['0'] + s.drop_last());
    } else {
        assert(z.drop_last() == Seq::<char>::empty());
        assert(digits_value(z.drop_last()) == 0);
    }
}

/// Zeros put before a text of digits do not change its number.
pub proof fn law_padding_keeps_number(s: Seq<char>, width: nat)
    requires
        all_digits(s),
    ensures
        all_digits(zero_padded(s, width)),
        digits_value(zero_padded(s, width)) == digits_value(s),
    decreases width - s.len(),
{
    if s.len() < width {
        lemma_leading_zero(s);
        law_padding_keeps_number(seq!['0'] + s, width);
    }
}

/// A digit stands for its number, and each further digit counts ten times less
/// than the one before.
pub proof fn law_digits_are_decimal(a: Seq<char>, b: Seq<char>, c: char)
    requires
        forall|i: int| 0 <= i < a.len() ==> '0' <= #[trigger] a[i] <= '9',
        forall|i: int| 0 <= i < b.len() ==> '0' <= #[trigger] b[i] <= '9',
        '0' <= c <= '9',
    ensures
        digits_value(a + b) == digits_value(a) * pow(10, b.len()) + digits_value(b),
        digits_value(seq![c]) == c as int - '0' as int,
        digits_value(Seq::<char>::empty()) == 0,
    decreases b.len(),
{
    let one = seq![c];
    assert(one.drop_last() == Seq::<char>::empty());
    assert(digits_value(one.drop_last()) == 0);
    if b.len() == 0 {
        assert(a + b == a);
        lemma_pow0(10);
    } else {
        let front = b.drop_last();
        assert forall|i: int| 0 <= i < front.len() implies '0' <= #[trigger] front[i] <= '9' by {
            assert(front[i] == b[i]);
        }
        law_digits_are_decimal(a, front, c);
        assert((a + b).drop_last() == a + front);
        assert((a + b).last() == b.last());
        let d = b.last() as int - 48;
        assert(b[b.len() - 1] == b.last());
        let x = digits_value(a) as int;
        let p = pow(10, front.len());
        let y = digits_value(front) as int;
        lemma_pow1(10);
        lemma_pow_adds(10, front.len(), 1);
        assert(pow(10, b.len()) == p * 10);
        assert((x * p + y) * 10 + d == x * (p * 10) + (y * 10 + d)) by (nonlinear_arith);
        lemma_pow_positive(10, front.len());
        assert(x * p >= 0) by (nonlinear_arith)
            requires
                x >= 0,
                p > 0,
        ;
    }
}

/// A number is written without leading zeros.
pub proof fn law_decimal_has_no_leading_zero(n: nat)
    ensures
        decimal(n).len() > 0,
        n > 0 ==> decimal(n)[0] != '0',
        n == 0 ==> decimal(n) == seq!['0'],
    decreases n,
{
    if n >= 10 {
        law_decimal_has_no_leading_zero(n / 10);
    }
}

/// Padding puts zeros before a text, as many as it lacks.
pub proof fn law_padding_puts_zeros_before(s: Seq<char>, width: nat)
    ensures
        zero_padded(s, width).len() == if s.len() < width {
            width
        } else {
            s.len()
        },
        zero_padded(s, width).skip(zero_padded(s, width).len() - s.len()) == s,
        forall|i: int|
            0 <= i < zero_padded(s, width).len() - s.len() ==> #[trigger] zero_padded(s, width)[i]
                == '0',
    decreases width - s.len(),
{
    let r = zero_padded(s, width);
    if s.len() < width {
        let t = seq!['0'] + s;
        law_padding_puts_zeros_before(t, width);
        let k = r.len() - s.len();
        assert(r.skip(k - 1) == t);
        assert(r.skip(k) == r.skip(k - 1).skip(1));
        assert(t.skip(1) == s);
        assert(r.skip(k - 1)[0] == r[k - 1]);
    } else {
        assert(s.skip(0) == s);
    }
}

/// Digits are read as the number that they stand for, with or without a plus
/// sign, if it fits in 32 bits.
pub proof fn law_digits_are_read(d: Seq<char>)
    requires
        d.len() > 0,
        forall|i: int| 0 <= i < d.len() ==> '0' <= #[trigger] d[i] <= '9',
    ensures
        digits_value(d) <= 0xffff_ffff ==> parsed_u32(d) == Some(digits_value(d) as u32) && parsed_u32(
            seq!['+'] + d,
        ) == Some(digits_value(d) as u32),
        digits_value(d) > 0xffff_ffff ==> parsed_u32(d) is None && parsed_u32(seq!['+'] + d) is None,
{
    assert(d[0] != '+');
    assert((seq!['+'] + d).skip(1) == d);
    assert(all_digits(d));
}

/// Nothing else is read as a number: what is read has a digit, and but for a
/// plus sign at its start nothing else.
pub proof fn law_only_digits_are_read(s: Seq<char>)
    requires
        parsed_u32(s) is Some,
    ensures
        s.len() > 0,
        forall|i: int| 1 <= i < s.len() ==> '0' <= #[trigger] s[i] <= '9',
        '0' <= s[0] <= '9' || (s[0] == '+' && s.len() > 1),
{
    let d = without_plus(s);
    assert forall|i: int| 1 <= i < s.len() implies '0' <= #[trigger] s[i] <= '9' by {
        if d != s {
            assert(d[i - 1] == s[i]);
        }
        assert(is_digit(if d == s {
            d[i]
        } else {
            d[i - 1]
        }));
    }
    assert(is_digit(d[0]));
}

/// Whether `s` is made of digits, if of anything.
pub open spec fn only_digits(s: Seq<char>) -> bool {
    forall|i: int| 0 <= i < s.len() ==> '0' <= #[trigger] s[i] <= '9'
}

/// Whether `s` is one plus or minus sign, or nothing.
pub open spec fn is_sign(s: Seq<char>) -> bool {
    s.len() == 0 || s == seq!['+'] || s == seq!['-']
}

/// Whether `s` is nothing, or an exponent: `e` or `E`, a sign or none, and digits.
pub open spec fn is_power(s: Seq<char>, sign: Seq<char>, digits: Seq<char>) -> bool {
    s.len() == 0 || (is_sign(sign) && only_digits(digits) && digits.len() > 0 && (s == seq!['e'] + sign
        + digits || s == seq!['E'] + sign + digits))
}

proof fn lemma_power_ends(s: Seq<char>, sign: Seq<char>, digits: Seq<char>)
    requires
        is_power(s, sign, digits),
    ensures
        ends_number(s),
{
    if s.len() > 0 {
        let u = s.skip(1);
        assert(u == sign + digits);
        assert('0' <= digits[0] <= '9');
        if sign.len() > 0 {
            assert(u[0] == sign[0]);
            assert(u.skip(1) == digits);
        } else {
            assert(u == digits);
        }
        assert(without_sign(u) == digits);
        assert forall|i: int| 0 <= i < digits.len() implies is_digit(digits[i]) by {
            assert('0' <= digits[i] <= '9');
        }
        lemma_digit_run_is(digits, digits.len());
    }
}

proof fn lemma_whole_number(whole: Seq<char>, power: Seq<char>)
    requires
        only_digits(whole),
        whole.len() > 0,
        ends_number(power),
    ensures
        is_unsigned_number(whole + power),
        '0' <= (whole + power)[0] <= '9',
{
    let u = whole + power;
    assert forall|i: int| 0 <= i < whole.len() implies is_digit(u[i]) by {
        assert('0' <= whole[i] <= '9');
    }
    assert('0' <= whole[0] <= '9');
    if power.len() > 0 {
        assert(u[whole.len() as int] == power[0]);
    }
    lemma_digit_run_is(u, whole.len());
    assert(u.skip(whole.len() as int) == power);
}

#[verifier::rlimit(40)]
proof fn lemma_pointed_number(whole: Seq<char>, fraction: Seq<char>, power: Seq<char>)
    requires
        only_digits(whole),
        only_digits(fraction),
        whole.len() + fraction.len() > 0,
        ends_number(power),
    ensures
        is_unsigned_number(whole + seq!['.'] + (fraction + power)),
        (whole + seq!['.'] + (fraction + power))[0] != '+',
        (whole + seq!['.'] + (fraction + power))[0] != '-',
{
    let rest = fraction + power;
    let u = whole + seq!['.'] + rest;
    assert forall|i: int| 0 <= i < whole.len() implies is_digit(u[i]) by {
        assert('0' <= whole[i] <= '9');
    }
    assert forall|i: int| 0 <= i < fraction.len() implies is_digit(rest[i]) by {
        assert('0' <= fraction[i] <= '9');
    }
    assert(u[whole.len() as int] == '.');
    if whole.len() > 0 {
        assert(is_digit(u[0]));
    }
    lemma_digit_run_is(u, whole.len());
    assert(u.skip(whole.len() as int + 1) == rest);
    if power.len() > 0 {
        assert(rest[fraction.len() as int] == power[0]);
    }
    lemma_digit_run_is(rest, fraction.len());
    assert(rest.skip(fraction.len() as int) == power);
}

/// A sign or none, digits, a point or none, digits, and an exponent or none is
/// read as a number where there is a digit before the exponent.
pub proof fn law_numbers_are_read(
    sign: Seq<char>,
    whole: Seq<char>,
    fraction: Seq<char>,
    power: Seq<char>,
    power_sign: Seq<char>,
    power_digits: Seq<char>,
)
    requires
        is_sign(sign),
        only_digits(whole),
        only_digits(fraction),
        is_power(power, power_sign, power_digits),
    ensures
        whole.len() > 0 ==> is_float(sign + (whole + power)),
        whole.len() + fraction.len() > 0 ==> is_float(
            sign + (whole + seq!['.'] + (fraction + power)),
        ),
{
    lemma_power_ends(power, power_sign, power_digits);
    if whole.len() > 0 {
        lemma_whole_number(whole, power);
        lemma_signed(sign, whole + power);
    }
    if whole.len() + fraction.len() > 0 {
        lemma_pointed_number(whole, fraction, power);
        lemma_signed(sign, whole + seq!['.'] + (fraction + power));
    }
}

/// The words for infinity and for no number are read, in any case and with a
/// sign or none.
pub proof fn law_number_words_are_read(sign: Seq<char>, word: Seq<char>)
    requires
        is_sign(sign),
        ascii_lower(word) == "inf"@ || ascii_lower(word) == "infinity"@ || ascii_lower(word)
            == "nan"@,
    ensures
        is_float(sign + word),
{
    reveal_strlit("inf");
    reveal_strlit("infinity");
    reveal_strlit("nan");
    assert(word.len() > 0) by {
        if word.len() == 0 {
            assert(ascii_lower(word).len() == 0);
        }
    }
    assert(ascii_lower(word)[0] == ascii_lower_char(word[0]));
    lemma_signed(sign, word);
}

proof fn lemma_signed(sign: Seq<char>, u: Seq<char>)
    requires
        is_sign(sign),
        u.len() > 0,
        u[0] != '+',
        u[0] != '-',
    ensures
        without_sign(sign + u) == u,
{
    if sign.len() == 0 {
        assert(sign + u == u);
    } else {
        assert((sign + u)[0] == sign[0]);
        assert((sign + u).skip(1) == u);
    }
}

/// What a number is made of.
pub struct NumberParts {
    pub sign: Seq<char>,
    pub whole: Seq<char>,
    pub point: Seq<char>,
    pub fraction: Seq<char>,
    pub power: Seq<char>,
    pub power_sign: Seq<char>,
    pub power_digits: Seq<char>,
}

#[verifier::rlimit(40)]
proof fn lemma_end_is_power(s: Seq<char>) -> (w: (Seq<char>, Seq<char>))
    requires
        ends_number(s),
    ensures
        is_power(s, w.0, w.1),
{
    let t = s.skip(1);
    let digits = without_sign(t);
    let sign = t.take(t.len() - digits.len());
    if s.len() > 0 {
        lemma_digit_run(digits);
        assert forall|i: int| 0 <= i < digits.len() implies '0' <= #[trigger] digits[i] <= '9' by {
            assert(is_digit(digits[i]));
        }
        assert(t == sign + digits);
        if sign.len() > 0 {
            assert(sign == seq![t[0]]);
        }
        assert(s == seq![s[0]] + sign + digits);
    }
    (sign, digits)
}

#[verifier::rlimit(40)]
proof fn lemma_unsigned_parts(u: Seq<char>) -> (w: (Seq<char>, Seq<char>, Seq<char>, Seq<char>))
    requires
        is_unsigned_number(u),
    ensures
        u == w.0 + w.1 + w.2 + w.3,
        only_digits(w.0),
        w.1 == seq!['.'] || (w.1.len() == 0 && w.2.len() == 0),
        only_digits(w.2),
        w.0.len() + w.2.len() > 0,
        ends_number(w.3),
{
    lemma_digit_run(u);
    let n = digit_run(u) as int;
    let whole = u.take(n);
    assert forall|i: int| 0 <= i < whole.len() implies '0' <= #[trigger] whole[i] <= '9' by {
        assert(is_digit(u[i]));
    }
    let none = Seq::<char>::empty();
    if n < u.len() && u[n] == '.' {
        let rest = u.skip(n + 1);
        lemma_digit_run(rest);
        let f = digit_run(rest) as int;
        let fraction = rest.take(f);
        assert forall|i: int| 0 <= i < fraction.len() implies '0' <= #[trigger] fraction[i] <= '9' by {
            assert(is_digit(rest[i]));
        }
        assert(rest == fraction + rest.skip(f));
        assert(u == whole + seq!['.'] + rest);
        assert(u == whole + seq!['.'] + fraction + rest.skip(f));
        (whole, seq!['.'], fraction, rest.skip(f))
    } else {
        assert(u == whole + none + none + u.skip(n));
        (whole, none, none, u.skip(n))
    }
}

/// Whether `s` is a sign or none and one of the words for infinity and for no
/// number, in any case.
pub open spec fn is_signed_word(s: Seq<char>, sign: Seq<char>) -> bool {
    &&& sign.len() <= s.len()
    &&& s.take(sign.len() as int) == sign
    &&& ascii_lower(s.skip(sign.len() as int)) == "inf"@ || ascii_lower(s.skip(sign.len() as int))
        == "infinity"@ || ascii_lower(s.skip(sign.len() as int)) == "nan"@
}

/// Whatever is read as a number is one of those words, or is made of those
/// parts.
#[verifier::rlimit(40)]
pub proof fn law_only_numbers_are_read(s: Seq<char>) -> (p: NumberParts)
    requires
        is_float(s),
    ensures
        is_sign(p.sign),
        is_signed_word(s, p.sign) || {
            &&& s == p.sign + (p.whole + p.point + p.fraction + p.power)
            &&& only_digits(p.whole)
            &&& p.point == seq!['.'] || (p.point.len() == 0 && p.fraction.len() == 0)
            &&& only_digits(p.fraction)
            &&& p.whole.len() + p.fraction.len() > 0
            &&& is_power(p.power, p.power_sign, p.power_digits)
        },
{
    let u = without_sign(s);
    let sign = s.take(s.len() - u.len());
    assert(s == sign + u);
    if sign.len() > 0 {
        assert(sign == seq![s[0]]);
    }
    let none = Seq::<char>::empty();
    if is_unsigned_number(u) {
        let w = lemma_unsigned_parts(u);
        let e = lemma_end_is_power(w.3);
        NumberParts {
            sign,
            whole: w.0,
            point: w.1,
            fraction: w.2,
            power: w.3,
            power_sign: e.0,
            power_digits: e.1,
        }
    } else {
        assert(s.skip(sign.len() as int) == u);
        NumberParts {
            sign,
            whole: none,
            point: none,
            fraction: none,
            power: none,
            power_sign: none,
            power_digits: none,
        }
    }
}

} // verus!
