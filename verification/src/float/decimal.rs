//! Reading binary64 numbers from decimal text.

use crate::float::arith;
use crate::float::arith::{split, Parts};
use crate::float::big;
use crate::float::big::Big;
use crate::float::formats;
use crate::float::formats::Format;
use crate::float::laws;
use crate::float::round;
use crate::float::Binary64;
use crate::text;
use crate::text::{digit_of, is_decimal_digit, is_word};
use vstd::arithmetic::mul::*;
use vstd::arithmetic::power2::*;
use vstd::prelude::*;
use vstd::slice::slice_subrange;

verus! {

/// `n * 10^x`, as a number of units over a denominator.
pub open spec fn decimal_units(n: nat, x: int) -> nat {
    n * big::ten_to(if x > 0 {
        x as nat
    } else {
        0
    }) * pow2(1074)
}

pub open spec fn decimal_den(x: int) -> nat {
    big::ten_to(if x < 0 {
        (-x) as nat
    } else {
        0
    })
}

/// The code of the binary64 number nearest to `n * 10^x`.
pub open spec fn nearest_decimal(n: nat, x: int) -> nat {
    Format::Double.nearest(decimal_units(n, x), decimal_den(x))
}

/// Whether `num / den` units lie no lower than midway from the code below to
/// `code`, a tie counting for the even one.
spec fn reached(code: nat, num: nat, den: nat) -> bool {
    let twice_mid = (Format::Double.units((code - 1) as nat) + Format::Double.units(code)) * den;
    twice_mid < 2 * num || (twice_mid == 2 * num && code % 2 == 0)
}

fn reaches(code: u64, twice: &Big, den: &Big, Ghost(num): Ghost<nat>) -> (r: bool)
    requires
        0 < code <= 0x7FF0_0000_0000_0000,
        twice.value() == 2 * num,
    ensures
        r == reached(code as nat, num, den.value()),
{
    let (m, t) = split(Format::Double, code - 1);
    proof {
        let f = Format::Double;
        let c = (code - 1) as nat;
        round::lemma_format_powers(f);
        formats::lemma_units_next(f, c);
        let p = pow2(t as nat);
        let d = den.value();
        assert(m as nat * p + (m + 1) as nat * p == (2 * m + 1) as nat * p) by (nonlinear_arith);
        assert((d * (2 * m + 1) as nat) * p == ((2 * m + 1) as nat * p) * d) by (nonlinear_arith);
    }
    let mid: Big = den.times(2 * m + 1).times_two_to(t);
    let side: i32 = mid.against(twice);
    side < 0 || (side == 0 && code % 2 == 0)
}

/// The code nearest to `num / den` units, found by bisection.
fn bisect(twice: &Big, den: &Big, Ghost(num): Ghost<nat>) -> (r: u64)
    requires
        twice.value() == 2 * num,
        den.value() > 0,
    ensures
        r == Format::Double.nearest(num, den.value()),
        r <= Format::Double.infinity(),
{
    let mut lo: u64 = 0;
    let mut hi: u64 = 0x7FF0_0000_0000_0001;
    while hi - lo > 1
        invariant
            lo < hi <= 0x7FF0_0000_0000_0001,
            twice.value() == 2 * num,
            lo > 0 ==> reached(lo as nat, num, den.value()),
            hi <= 0x7FF0_0000_0000_0000 ==> !reached(hi as nat, num, den.value()),
        decreases hi - lo,
    {
        let mid: u64 = lo + (hi - lo) / 2;
        if reaches(mid, twice, den, Ghost(num)) {
            lo = mid;
        } else {
            hi = mid;
        }
    }
    proof {
        assert((hi - 1) as nat == lo);
        assert(Format::Double.is_nearest(lo as nat, num, den.value()));
        formats::lemma_nearest_is(Format::Double, lo as nat, num, den.value());
    }
    lo
}

proof fn lemma_ten_beats_eight(k: nat)
    ensures
        big::ten_to(k) >= pow2(3 * k),
    decreases k,
{
    lemma2_to64();
    if k > 0 {
        lemma_ten_beats_eight((k - 1) as nat);
        lemma_pow2_adds(3, (3 * (k - 1)) as nat);
    }
}

/// Digits without a leading zero bound the number from both sides.
proof fn lemma_digits_bound(s: Seq<char>)
    requires
        text::all_digits(s),
    ensures
        text::digits_value(s) < big::ten_to(s.len()),
        s.len() > 0 && s[0] != '0' ==> text::digits_value(s) >= big::ten_to((s.len() - 1) as nat),
    decreases s.len(),
{
    if s.len() > 0 {
        let rest = s.drop_last();
        assert(text::all_digits(rest));
        lemma_digits_bound(rest);
        assert(text::is_digit(s[s.len() - 1]));
        if s.len() > 1 {
            assert(rest[0] == s[0]);
        } else {
            assert(rest =~= Seq::empty());
            assert(text::is_digit(s[0]));
        }
    }
}

proof fn lemma_leading_zeros(s: Seq<char>, z: nat)
    requires
        z <= s.len(),
        forall|i: int| 0 <= i < z ==> #[trigger] s[i] == '0',
    ensures
        text::digits_value(s) == text::digits_value(s.skip(z as int)),
    decreases s.len(),
{
    if z < s.len() {
        let rest = s.drop_last();
        lemma_leading_zeros(rest, z);
        assert(s.skip(z as int).drop_last() =~= rest.skip(z as int));
    } else {
        assert(s.skip(z as int) =~= Seq::empty());
        lemma_all_zeros(s);
    }
}

proof fn lemma_all_zeros(s: Seq<char>)
    requires
        forall|i: int| 0 <= i < s.len() ==> #[trigger] s[i] == '0',
    ensures
        text::digits_value(s) == 0,
    decreases s.len(),
{
    if s.len() > 0 {
        lemma_all_zeros(s.drop_last());
    }
}

/// So large that the nearest code is that of infinity.
proof fn lemma_huge(n: nat, x: int, len: nat)
    requires
        len > 0,
        n >= big::ten_to((len - 1) as nat),
        len + x >= 343,
    ensures
        nearest_decimal(n, x) == Format::Double.infinity(),
{
    let f = Format::Double;
    let a: nat = if x > 0 {
        x as nat
    } else {
        0
    };
    let b: nat = if x < 0 {
        (-x) as nat
    } else {
        0
    };
    let l = (len - 1) as nat;
    let extra = (l + a - b - 342) as nat;
    big::lemma_ten_to_adds(l, a);
    big::lemma_ten_to_adds(342 + extra, b);
    big::lemma_ten_to_adds(342, extra);
    big::lemma_ten_to_adds(extra, 0);
    big::lemma_ten_to_adds(b, 0);
    lemma_ten_beats_eight(342);
    let den = big::ten_to(b);
    let t = big::ten_to(342);
    let e = big::ten_to(extra);
    assert(n * big::ten_to(a) >= big::ten_to(l) * big::ten_to(a)) by (nonlinear_arith)
        requires
            n >= big::ten_to(l),
    ;
    assert(l + a == 342 + extra + b);
    assert((t * e) * den >= pow2(1026) * den) by (nonlinear_arith)
        requires
            t >= pow2(1026),
            e >= 1,
    {
        assert(t * e >= t);
    }
    // units(infinity) == 2^52 * 2^2046
    round::lemma_format_powers(f);
    lemma2_to64();
    lemma2_to64_rest();
    formats::lemma_grid_join(pow2(52), 2046, 52);
    lemma_pow2_adds(52, 2046);
    lemma_pow2_adds(1026, 1074);
    arith::lemma_pow2_order_le(2098, 2100);
    let num = decimal_units(n, x);
    assert(f.units(f.infinity()) == pow2(2098));
    assert(pow2(2098) * den <= num) by (nonlinear_arith)
        requires
            num == n * big::ten_to(a) * pow2(1074),
            n * big::ten_to(a) >= pow2(1026) * den,
            pow2(2100) == pow2(1026) * pow2(1074),
            pow2(2098) <= pow2(2100),
    {
        assert(num >= (pow2(1026) * den) * pow2(1074));
        assert((pow2(1026) * den) * pow2(1074) == (pow2(1026) * pow2(1074)) * den);
        assert(pow2(2098) * den <= pow2(2100) * den);
    }
    formats::lemma_nearest_overflow(f, num, den);
    formats::lemma_nearest_is(f, f.infinity(), num, den);
}

/// So small that the nearest code is that of zero.
proof fn lemma_tiny(n: nat, x: int, len: nat)
    requires
        n < big::ten_to(len),
        n == 0 || len + x <= -359,
    ensures
        nearest_decimal(n, x) == 0,
{
    let f = Format::Double;
    let num = decimal_units(n, x);
    let den = decimal_den(x);
    let b: nat = if x < 0 {
        (-x) as nat
    } else {
        0
    };
    big::lemma_ten_to_adds(b, 0);
    round::lemma_units_zero(f);
    if n == 0 {
        assert(num == 0) by (nonlinear_arith)
            requires
                num == n * big::ten_to(if x > 0 {
                    x as nat
                } else {
                    0
                }) * pow2(1074),
                n == 0,
        ;
    } else {
        let extra = (b - len - 359) as nat;
        big::lemma_ten_to_adds(len, 359 + extra);
        big::lemma_ten_to_adds(359, extra);
        big::lemma_ten_to_adds(extra, 0);
        lemma_ten_beats_eight(359);
        lemma2_to64();
        lemma_pow2_adds(3, 1074);
        lemma_pow2_pos(1074);
        assert(den == big::ten_to(len) * (big::ten_to(359) * big::ten_to(extra)));
        let t = big::ten_to(359);
        let e = big::ten_to(extra);
        let d = big::ten_to(len);
        assert(n * 1 == n);
        assert(2 * num < den) by (nonlinear_arith)
            requires
                num == n * 1 * pow2(1074),
                n < d,
                den == d * (t * e),
                t >= pow2(1077),
                pow2(1077) == 8 * pow2(1074),
                pow2(1074) > 0,
                e >= 1,
        {
            assert(t * e >= t);
            assert(den >= d * (8 * pow2(1074)));
            assert(n * pow2(1074) <= d * pow2(1074));
        }
    }
    assert((f.units(0) + f.units(1)) * den == den) by (nonlinear_arith)
        requires
            f.units(0) == 0,
            f.units(1) == 1,
    ;
    assert(f.is_nearest(0, num, den));
    formats::lemma_nearest_is(f, 0, num, den);
}

/// The code of the binary64 number nearest to the digits times `10^x`.
fn round_decimal(digits: &[char], x: i128) -> (r: u64)
    requires
        text::all_digits(digits@),
        -0x10_0000_0000_0000_0000_0000_0000 <= x <= 0x10_0000_0000_0000_0000_0000_0000,
    ensures
        r == nearest_decimal(text::digits_value(digits@), x as int),
        r <= Format::Double.infinity(),
{
    let len: usize = digits.len();
    let mut z: usize = 0;
    while z < len && digits[z] == '0'
        invariant
            z <= len == digits@.len(),
            forall|i: int| 0 <= i < z ==> #[trigger] digits@[i] == '0',
        decreases len - z,
    {
        z = z + 1;
    }
    let ghost n = text::digits_value(digits@);
    let ghost tail = digits@.skip(z as int);
    proof {
        lemma_leading_zeros(digits@, z as nat);
        assert(text::all_digits(tail));
        lemma_digits_bound(tail);
    }
    let count: i128 = (len - z) as i128;
    if count == 0 {
        proof {
            assert(tail =~= Seq::empty());
            lemma_tiny(n, x as int, 0);
        }
        return 0;
    }
    assert(tail[0] == digits@[z as int]);
    if count + x >= 343 {
        proof {
            lemma_huge(n, x as int, count as nat);
        }
        return 0x7FF0_0000_0000_0000;
    }
    if count + x <= -359 {
        proof {
            lemma_tiny(n, x as int, count as nat);
        }
        return 0;
    }
    let mut value: Big = Big::from_u64(0);
    assert(digits@.take(0) =~= Seq::empty());
    for i in 0..len
        invariant
            len == digits@.len(),
            text::all_digits(digits@),
            value.value() == text::digits_value(digits@.take(i as int)),
    {
        let d: u32 = digit_of(digits[i]);
        value = value.times_plus(10, d as u64);
        assert(digits@.take(i + 1).drop_last() =~= digits@.take(i as int));
    }
    assert(digits@.take(len as int) =~= digits@);
    let one: Big = Big::from_u64(1);
    let twice: Big;
    let den: Big;
    if x > 0 {
        twice = value.times_ten_to(x as u128).times_two_to(1075);
        den = one;
    } else {
        twice = value.times_two_to(1075);
        den = one.times_ten_to((-x) as u128);
    }
    let ghost num = decimal_units(n, x as int);
    proof {
        lemma_pow2_unfold(1075);
        let a: nat = if x > 0 {
            x as nat
        } else {
            0
        };
        let b: nat = if x < 0 {
            (-x) as nat
        } else {
            0
        };
        assert(n * 1 == n && 1 * big::ten_to(b) == big::ten_to(b));
        let k = n * big::ten_to(a);
        assert(k * (2 * pow2(1074)) == 2 * (k * pow2(1074))) by (nonlinear_arith);
        big::lemma_ten_to_adds(b, 0);
        assert(den.value() == decimal_den(x as int));
        assert(twice.value() == 2 * num);
    }
    bisect(&twice, &den, Ghost(num))
}

/// The sign in front of a text, and what follows it.
pub open spec fn split_sign(s: Seq<char>) -> (bool, Seq<char>) {
    if s.len() > 0 && s[0] == '-' {
        (true, s.skip(1))
    } else if s.len() > 0 && s[0] == '+' {
        (false, s.skip(1))
    } else {
        (false, s)
    }
}

/// What comes before the letter of the exponent.
pub open spec fn mantissa(s: Seq<char>) -> Seq<char> {
    s.take(text::count_before(s, |c: char| c == 'e' || c == 'E') as int)
}

/// The digits before the point.
pub open spec fn whole(s: Seq<char>) -> Seq<char> {
    mantissa(s).take(text::count_before(mantissa(s), |c: char| c == '.') as int)
}

/// The digits after the point.
pub open spec fn fraction(s: Seq<char>) -> Seq<char> {
    if whole(s).len() < mantissa(s).len() {
        mantissa(s).skip(whole(s).len() as int + 1)
    } else {
        Seq::empty()
    }
}

pub open spec fn is_exponent(t: Seq<char>) -> bool {
    split_sign(t).1.len() > 0 && text::all_digits(split_sign(t).1)
}

pub open spec fn exponent(t: Seq<char>) -> int {
    let n = text::digits_value(split_sign(t).1) as int;
    if split_sign(t).0 {
        -n
    } else {
        n
    }
}

/// Whether the text is a decimal number without a sign: digits with at most one
/// point among, before or after them, and perhaps a power of ten.
pub open spec fn is_number(s: Seq<char>) -> bool {
    &&& text::all_digits(whole(s))
    &&& text::all_digits(fraction(s))
    &&& whole(s).len() + fraction(s).len() > 0
    &&& mantissa(s).len() < s.len() ==> is_exponent(s.skip(mantissa(s).len() as int + 1))
}

/// The code of the binary64 number nearest to a decimal number.
pub open spec fn number_code(s: Seq<char>) -> nat {
    let power = if mantissa(s).len() < s.len() {
        exponent(s.skip(mantissa(s).len() as int + 1))
    } else {
        0
    };
    nearest_decimal(text::digits_value(whole(s) + fraction(s)), power - fraction(s).len())
}

/// The binary64 number that a text spells: a decimal number, an infinity or
/// NaN, with or without a sign.
pub open spec fn parsed(s: Seq<char>) -> Option<Binary64> {
    let (neg, rest) = split_sign(s);
    if text::spells(rest, "inf"@) || text::spells(rest, "infinity"@) {
        Some(Binary64::of(Parts { neg, code: Format::Double.infinity() as u64 }))
    } else if text::spells(rest, "nan"@) {
        Some(Binary64::of(Parts { neg, ..arith::quiet_nan(Format::Double) }))
    } else if is_number(rest) {
        Some(Binary64::of(Parts { neg, code: number_code(rest) as u64 }))
    } else {
        None
    }
}

/// Exponents from here on no longer make a difference.
pub const EXPONENT_LIMIT: i128 = 0x1_0000_0000_0000_0000_0000_0000;

/// An exponent, cut down to the limit.
pub open spec fn limited(x: int) -> int {
    if x > EXPONENT_LIMIT {
        EXPONENT_LIMIT as int
    } else if x < -EXPONENT_LIMIT {
        -EXPONENT_LIMIT as int
    } else {
        x
    }
}

fn read_sign(s: &[char]) -> (r: (bool, &[char]))
    ensures
        (r.0, r.1@) == split_sign(s@),
{
    if s.len() > 0 && s[0] == '-' {
        (true, slice_subrange(s, 1, s.len()))
    } else if s.len() > 0 && s[0] == '+' {
        (false, slice_subrange(s, 1, s.len()))
    } else {
        (false, s)
    }
}

fn are_digits(s: &[char]) -> (r: bool)
    ensures
        r == text::all_digits(s@),
{
    for i in 0..s.len()
        invariant
            forall|j: int| 0 <= j < i ==> text::is_digit(#[trigger] s@[j]),
    {
        if !is_decimal_digit(s[i]) {
            assert(!text::is_digit(s@[i as int]));
            return false;
        }
    }
    true
}

/// The exponent that a text spells, cut down to the limit.
fn read_exponent(t: &[char]) -> (r: Option<i128>)
    ensures
        r is Some <==> is_exponent(t@),
        r matches Some(x) ==> x == limited(exponent(t@)),
{
    let (neg, digits) = read_sign(t);
    if digits.len() == 0 || !are_digits(digits) {
        return None;
    }
    let mut n: i128 = 0;
    assert(digits@.take(0) =~= Seq::empty());
    for i in 0..digits.len()
        invariant
            text::all_digits(digits@),
            0 <= n <= EXPONENT_LIMIT,
            n == limited(text::digits_value(digits@.take(i as int)) as int),
    {
        let d: u32 = digit_of(digits[i]);
        assert(digits@.take(i + 1).drop_last() =~= digits@.take(i as int));
        let next: i128 = 10 * n + d as i128;
        n = if next > EXPONENT_LIMIT {
            EXPONENT_LIMIT
        } else {
            next
        };
    }
    assert(digits@.take(digits@.len() as int) =~= digits@);
    if neg {
        Some(-n)
    } else {
        Some(n)
    }
}

/// Beyond the limit, the exponent makes no difference.
proof fn lemma_limited(digits: Seq<char>, e: int, places: nat)
    requires
        text::all_digits(digits),
        places <= digits.len() <= usize::MAX,
    ensures
        nearest_decimal(text::digits_value(digits), limited(e) - places) == nearest_decimal(
            text::digits_value(digits),
            e - places,
        ),
{
    let n = text::digits_value(digits);
    lemma_digits_bound(digits);
    if e > EXPONENT_LIMIT {
        if n == 0 {
            lemma_tiny(n, limited(e) - places, digits.len());
            lemma_tiny(n, e - places, digits.len());
        } else {
            assert(big::ten_to(0) == 1);
            lemma_huge(n, limited(e) - places, 1);
            lemma_huge(n, e - places, 1);
        }
    } else if e < -EXPONENT_LIMIT {
        lemma_tiny(n, limited(e) - places, digits.len());
        lemma_tiny(n, e - places, digits.len());
    }
}

/// Where the exponent's letter stands, or the end.
fn find_mark(s: &[char]) -> (r: usize)
    ensures
        r == text::count_before(s@, |c: char| c == 'e' || c == 'E'),
        r <= s@.len(),
{
    let mut i: usize = 0;
    while i < s.len() && s[i] != 'e' && s[i] != 'E'
        invariant
            i <= s@.len(),
            forall|j: int| 0 <= j < i ==> #[trigger] s@[j] != 'e' && s@[j] != 'E',
        decreases s@.len() - i,
    {
        i = i + 1;
    }
    proof {
        text::lemma_count_before(s@, |c: char| c == 'e' || c == 'E', i as nat);
    }
    i
}

/// Where the point stands, or the end.
fn find_point(s: &[char]) -> (r: usize)
    ensures
        r == text::count_before(s@, |c: char| c == '.'),
        r <= s@.len(),
{
    let mut i: usize = 0;
    while i < s.len() && s[i] != '.'
        invariant
            i <= s@.len(),
            forall|j: int| 0 <= j < i ==> #[trigger] s@[j] != '.',
        decreases s@.len() - i,
    {
        i = i + 1;
    }
    proof {
        text::lemma_count_before(s@, |c: char| c == '.', i as nat);
    }
    i
}

/// The code of the number that a text spells without a sign.
#[verifier::spinoff_prover]
fn read_number(s: &[char]) -> (r: Option<u64>)
    ensures
        r is Some <==> is_number(s@),
        r matches Some(code) ==> code == number_code(s@) && code <= Format::Double.infinity(),
{
    let len: usize = s.len();
    let mark: usize = find_mark(s);
    let head: &[char] = slice_subrange(s, 0, mark);
    assert(head@ =~= mantissa(s@));
    let point: usize = find_point(head);
    let before: &[char] = slice_subrange(head, 0, point);
    let after: &[char] = if point < mark {
        slice_subrange(head, point + 1, mark)
    } else {
        slice_subrange(head, mark, mark)
    };
    assert(before@ =~= whole(s@));
    assert(after@ =~= fraction(s@));
    if !are_digits(before) || !are_digits(after) || (before.len() == 0 && after.len() == 0) {
        return None;
    }
    let power: i128 = if mark < len {
        let tail: &[char] = slice_subrange(s, mark + 1, len);
        assert(tail@ =~= s@.skip(mantissa(s@).len() as int + 1));
        match read_exponent(tail) {
            Some(x) => x,
            None => {
                return None;
            },
        }
    } else {
        0
    };
    let mut digits: Vec<char> = Vec::new();
    for i in 0..before.len()
        invariant
            digits@ =~= before@.take(i as int),
    {
        digits.push(before[i]);
    }
    for i in 0..after.len()
        invariant
            digits@ =~= before@ + after@.take(i as int),
    {
        digits.push(after[i]);
    }
    assert(digits@ =~= whole(s@) + fraction(s@));
    proof {
        let e = if mark < len {
            exponent(s@.skip(mantissa(s@).len() as int + 1))
        } else {
            0
        };
        lemma_limited(digits@, e, after@.len());
    }
    Some(round_decimal(digits.as_slice(), power - after.len() as i128))
}

/// The binary64 number that a text spells.
pub fn parse(s: &[char]) -> (r: Option<Binary64>)
    ensures
        r == parsed(s@),
{
    let (neg, rest) = read_sign(s);
    if is_word(rest, "inf") || is_word(rest, "infinity") {
        return Some(Binary64::from_parts(Parts { neg, code: 0x7FF0_0000_0000_0000 }));
    }
    if is_word(rest, "nan") {
        return Some(Binary64::from_parts(Parts { neg, code: 0x7FF8_0000_0000_0000 }));
    }
    match read_number(rest) {
        Some(code) => Some(Binary64::from_parts(Parts { neg, code })),
        None => None,
    }
}

/// Decimal digits spell the binary64 number nearest to what they say, which up
/// to `2^53` is that very number.
pub proof fn law_parsed_digits(n: nat)
    ensures
        parsed(text::decimal_text(n)) == Some(Binary64::of_integer(n)),
{
    let s = text::decimal_text(n);
    text::law_decimal_text(n);
    assert(text::is_digit(s[0]));
    assert(split_sign(s) == (false, s));
    // No digit is the letter that a word starts with.
    reveal_strlit("inf");
    reveal_strlit("infinity");
    reveal_strlit("nan");
    let low = s.map_values(|c: char| text::lower(c));
    assert(low[0] == s[0]);
    assert("inf"@[0] == 'i' && "infinity"@[0] == 'i' && "nan"@[0] == 'n');
    // No digit is the letter of an exponent or a point.
    assert forall|i: int| 0 <= i < s.len() implies (#[trigger] s[i]) != 'e' && s[i] != 'E' && s[i]
        != '.' by {
        assert(text::is_digit(s[i]));
    }
    text::lemma_count_before(s, |c: char| c == 'e' || c == 'E', s.len());
    assert(mantissa(s) =~= s);
    text::lemma_count_before(s, |c: char| c == '.', s.len());
    assert(whole(s) =~= s);
    assert(fraction(s) =~= Seq::empty());
    assert(s + fraction(s) =~= s);
    let num = n * pow2(1074);
    assert(n * big::ten_to(0) == n) by {
        assert(big::ten_to(0) == 1);
        assert(n * 1 == n);
    }
}

/// A decimal number taken apart: the digits before the point, those after it, and
/// what follows them. A text without point or exponent has no such part.
pub open spec fn decimal_number(a: Seq<char>, b: Seq<char>, tail: Seq<char>) -> Seq<char> {
    a + seq!['.'] + b + tail
}

/// An exponent: its letter, perhaps a sign, and digits.
pub open spec fn exponent_tail(mark: char, sign: Seq<char>, digits: Seq<char>) -> Seq<char> {
    seq![mark] + sign + digits
}

/// What the parts of a decimal number are read as.
proof fn lemma_decimal_parts(a: Seq<char>, b: Seq<char>, tail: Seq<char>)
    requires
        text::all_digits(a),
        text::all_digits(b),
        tail.len() > 0 ==> tail[0] == 'e' || tail[0] == 'E',
    ensures
        ({
            let s = decimal_number(a, b, tail);
            &&& mantissa(s) == a + seq!['.'] + b
            &&& whole(s) == a
            &&& fraction(s) == b
            &&& mantissa(s).len() < s.len() <==> tail.len() > 0
            &&& tail.len() > 0 ==> s.skip(mantissa(s).len() as int + 1) == tail.skip(1)
            &&& s.len() > 0
            &&& s[0] == '.' || text::is_digit(s[0])
        }),
{
    let s = decimal_number(a, b, tail);
    let head = a + seq!['.'] + b;
    let mark = |c: char| c == 'e' || c == 'E';
    let point = |c: char| c == '.';
    assert forall|i: int| 0 <= i < head.len() implies !mark(#[trigger] s[i]) by {
        if i < a.len() {
            assert(s[i] == a[i]);
            assert(text::is_digit(a[i]));
        } else if i > a.len() {
            assert(s[i] == b[i - a.len() - 1]);
            assert(text::is_digit(b[i - a.len() - 1]));
        }
    }
    if tail.len() > 0 {
        assert(s[head.len() as int] == tail[0]);
    }
    text::lemma_count_before(s, mark, head.len());
    assert(mantissa(s) =~= head);
    assert forall|i: int| 0 <= i < a.len() implies !point(#[trigger] head[i]) by {
        assert(head[i] == a[i]);
        assert(text::is_digit(a[i]));
    }
    assert(head[a.len() as int] == '.');
    text::lemma_count_before(head, point, a.len());
    assert(whole(s) =~= a);
    assert(fraction(s) =~= b);
    if tail.len() > 0 {
        assert(s.skip(head.len() as int + 1) =~= tail.skip(1));
    }
    if a.len() > 0 {
        assert(s[0] == a[0]);
        assert(text::is_digit(a[0]));
    } else {
        assert(s[0] == '.');
    }
}

/// A number that starts with a digit or a point is no word, and the sign in front
/// of it is its sign.
proof fn lemma_signed_number(sign: Seq<char>, s: Seq<char>)
    requires
        sign.len() == 0 || sign == seq!['+'] || sign == seq!['-'],
        s.len() > 0,
        s[0] == '.' || text::is_digit(s[0]),
    ensures
        split_sign(sign + s) == (sign == seq!['-'], s),
        !text::spells(s, "inf"@),
        !text::spells(s, "infinity"@),
        !text::spells(s, "nan"@),
{
    reveal_strlit("inf");
    reveal_strlit("infinity");
    reveal_strlit("nan");
    assert(text::lowered(s)[0] == s[0]);
    assert("inf"@[0] == 'i' && "infinity"@[0] == 'i' && "nan"@[0] == 'n');
    let t = sign + s;
    if sign.len() == 0 {
        assert(t =~= s);
        assert(sign != seq!['-']) by {
            assert(seq!['-'].len() == 1);
        }
    } else {
        assert(t[0] == sign[0]);
        assert(seq!['-'][0] == '-' && seq!['+'][0] == '+');
        assert(t.skip(1) =~= s);
    }
}

/// What is nearest to `n * 10^x / 10^p`.
proof fn lemma_nearest_decimal(n: nat, x: int, p: nat)
    ensures
        x >= 0 ==> Format::Double.is_nearest(
            nearest_decimal(n, x - p),
            (n * big::ten_to(x as nat)) * pow2(1074),
            big::ten_to(p),
        ),
        x < 0 ==> Format::Double.is_nearest(
            nearest_decimal(n, x - p),
            n * pow2(1074),
            big::ten_to((p - x) as nat),
        ),
{
    let f = Format::Double;
    let one = pow2(1074);
    let d = x - p;
    let num = decimal_units(n, d);
    let den = decimal_den(d);
    let code = nearest_decimal(n, d);
    assert(big::ten_to(0) == 1 && n * 1 == n);
    big::lemma_ten_to_adds(if d < 0 {
        (-d) as nat
    } else {
        0
    }, 0);
    laws::law_nearest_exists(f, num, den);
    if x < 0 {
    } else if d >= 0 {
        let k = big::ten_to(p);
        big::lemma_ten_to_adds(d as nat, p);
        big::lemma_ten_to_adds(p, 0);
        laws::lemma_common_factor(f, code, num, den, k);
        let y = big::ten_to(d as nat);
        assert((n * y * one) * k == (n * (y * k)) * one) by (nonlinear_arith);
        assert(1 * k == k);
    } else {
        let k = big::ten_to(x as nat);
        big::lemma_ten_to_adds((-d) as nat, x as nat);
        big::lemma_ten_to_adds(x as nat, 0);
        laws::lemma_common_factor(f, code, num, den, k);
        assert((n * one) * k == (n * k) * one) by (nonlinear_arith);
    }
}

/// Digits with a point among, before or after them spell the binary64 number
/// nearest to the decimal number that they are, with the sign that stands in
/// front.
pub proof fn law_parsed_decimal(sign: Seq<char>, a: Seq<char>, b: Seq<char>) -> (code: nat)
    requires
        sign.len() == 0 || sign == seq!['+'] || sign == seq!['-'],
        text::all_digits(a),
        text::all_digits(b),
        a.len() + b.len() > 0,
    ensures
        parsed(sign + (a + seq!['.'] + b)) == Some(
            Binary64::of(Parts { neg: sign == seq!['-'], code: code as u64 }),
        ),
        Format::Double.is_nearest(
            code,
            (text::digits_value(a) * big::ten_to(b.len()) + text::digits_value(b)) * pow2(1074),
            big::ten_to(b.len()),
        ),
{
    let tail = Seq::<char>::empty();
    let s = decimal_number(a, b, tail);
    assert(s =~= a + seq!['.'] + b);
    lemma_decimal_parts(a, b, tail);
    lemma_signed_number(sign, s);
    text::law_digits_value(a, b);
    let n = text::digits_value(a + b);
    lemma_nearest_decimal(n, 0, b.len());
    assert(big::ten_to(0) == 1 && n * 1 == n);
    nearest_decimal(n, 0 - b.len())
}

/// With an exponent, the number is as many powers of ten larger or smaller.
pub proof fn law_parsed_exponent(
    sign: Seq<char>,
    a: Seq<char>,
    b: Seq<char>,
    mark: char,
    exponent_sign: Seq<char>,
    digits: Seq<char>,
) -> (code: nat)
    requires
        sign.len() == 0 || sign == seq!['+'] || sign == seq!['-'],
        text::all_digits(a),
        text::all_digits(b),
        a.len() + b.len() > 0,
        mark == 'e' || mark == 'E',
        exponent_sign.len() == 0 || exponent_sign == seq!['+'] || exponent_sign == seq!['-'],
        text::all_digits(digits),
        digits.len() > 0,
    ensures
        parsed(sign + (a + seq!['.'] + b + (seq![mark] + exponent_sign + digits))) == Some(
            Binary64::of(Parts { neg: sign == seq!['-'], code: code as u64 }),
        ),
        ({
            let n = text::digits_value(a) * big::ten_to(b.len()) + text::digits_value(b);
            let x = text::digits_value(digits);
            &&& exponent_sign != seq!['-'] ==> Format::Double.is_nearest(
                code,
                (n * big::ten_to(x)) * pow2(1074),
                big::ten_to(b.len()),
            )
            &&& exponent_sign == seq!['-'] ==> Format::Double.is_nearest(
                code,
                n * pow2(1074),
                big::ten_to(b.len() + x),
            )
        }),
{
    let tail = exponent_tail(mark, exponent_sign, digits);
    let s = decimal_number(a, b, tail);
    assert(tail[0] == mark);
    lemma_decimal_parts(a, b, tail);
    lemma_signed_number(sign, s);
    assert(tail.skip(1) =~= exponent_sign + digits);
    assert(text::is_digit(digits[0]));
    lemma_signed_number(exponent_sign, digits);
    text::law_digits_value(a, b);
    let n = text::digits_value(a + b);
    let x = text::digits_value(digits);
    let e: int = if exponent_sign == seq!['-'] {
        -(x as int)
    } else {
        x as int
    };
    lemma_nearest_decimal(n, e, b.len());
    if x == 0 && exponent_sign == seq!['-'] {
        assert(big::ten_to(0) == 1 && n * 1 == n);
    }
    nearest_decimal(n, e - b.len())
}

} // verus!
