//! Characters, digits and whitespace.

use crate::float::big;
use vstd::prelude::*;
use vstd::slice::slice_subrange;
use vstd::string::*;

verus! {

pub open spec fn is_digit(c: char) -> bool {
    '0' <= c && c <= '9'
}

pub open spec fn digit(c: char) -> nat {
    (c as int - '0' as int) as nat
}

pub open spec fn all_digits(s: Seq<char>) -> bool {
    forall|i: int| 0 <= i < s.len() ==> is_digit(#[trigger] s[i])
}

/// The number that decimal digits spell.
pub open spec fn digits_value(s: Seq<char>) -> nat
    decreases s.len(),
{
    if s.len() == 0 {
        0
    } else {
        10 * digits_value(s.drop_last()) + digit(s.last())
    }
}

/// A character with `A` to `Z` in lower case.
pub open spec fn lower(c: char) -> char {
    if 'A' <= c && c <= 'Z' {
        (c as u32 + 32) as char
    } else {
        c
    }
}

/// Whether the characters are those of a word, upper and lower case alike.
pub open spec fn spells(s: Seq<char>, word: Seq<char>) -> bool {
    lowered(s) == word
}

/// How many characters come before the first that stops.
pub open spec fn count_before(s: Seq<char>, stop: spec_fn(char) -> bool) -> nat
    decreases s.len(),
{
    if s.len() == 0 || stop(s[0]) {
        0
    } else {
        1 + count_before(s.drop_first(), stop)
    }
}

/// What `count_before` counts.
pub proof fn lemma_count_before(s: Seq<char>, stop: spec_fn(char) -> bool, n: nat)
    requires
        n <= s.len(),
        forall|i: int| 0 <= i < n ==> !stop(#[trigger] s[i]),
        n < s.len() ==> stop(s[n as int]),
    ensures
        count_before(s, stop) == n,
    decreases s.len(),
{
    if n > 0 {
        assert(!stop(s[0]));
        let rest = s.drop_first();
        assert forall|i: int| 0 <= i < n - 1 implies !stop(#[trigger] rest[i]) by {
            assert(rest[i] == s[i + 1]);
        }
        lemma_count_before(rest, stop, (n - 1) as nat);
    }
}

/// A character with `A` to `Z` in lower case.
pub fn to_lower(c: char) -> (r: char)
    ensures
        r == lower(c),
{
    if 'A' <= c && c <= 'Z' {
        (c as u8 + 32) as char
    } else {
        c
    }
}

/// Whether the characters are those of a word in lower case.
pub fn is_word(s: &[char], word: &str) -> (r: bool)
    ensures
        r == spells(s@, word@),
{
    let w: Vec<char> = chars_of(word);
    let ghost low = lowered(s@);
    if s.len() != w.len() {
        return false;
    }
    for i in 0..s.len()
        invariant
            s@.len() == w@.len(),
            w@ == word@,
            low == lowered(s@),
            low.take(i as int) =~= w@.take(i as int),
    {
        if to_lower(s[i]) != w[i] {
            assert(low[i as int] != w@[i as int]);
            return false;
        }
    }
    assert(low.take(low.len() as int) =~= low);
    assert(w@.take(w@.len() as int) =~= w@);
    true
}

/// Whether two texts are the same.
pub fn same_text(a: &str, b: &str) -> (r: bool)
    ensures
        r == (a@ == b@),
{
    let x: Vec<char> = chars_of(a);
    let y: Vec<char> = chars_of(b);
    if x.len() != y.len() {
        return false;
    }
    for i in 0..x.len()
        invariant
            x@ == a@,
            y@ == b@,
            x@.len() == y@.len(),
            forall|j: int| 0 <= j < i ==> x@[j] == y@[j],
    {
        if x[i] != y[i] {
            assert(x@[i as int] != y@[i as int]);
            return false;
        }
    }
    assert(x@ =~= y@);
    true
}

/// The characters of a string.
pub fn chars_of(s: &str) -> (r: Vec<char>)
    ensures
        r@ == s@,
{
    let mut r: Vec<char> = Vec::new();
    for c in it: s.chars()
        invariant
            it.seq() == s@,
            r@ == s@.take(it.index()),
    {
        r.push(c);
        assert(s@.take(it.index() + 1) =~= s@.take(it.index()).push(s@[it.index()]));
    }
    assert(s@.take(s@.len() as int) =~= s@);
    r
}

pub fn is_decimal_digit(c: char) -> (r: bool)
    ensures
        r == is_digit(c),
{
    '0' <= c && c <= '9'
}

pub fn digit_of(c: char) -> (r: u32)
    requires
        is_digit(c),
    ensures
        r == digit(c),
        r < 10,
{
    c as u32 - '0' as u32
}

/// Unicode's White_Space.
pub open spec fn is_white(c: char) -> bool {
    let n = c as u32;
    ||| 0x09 <= n <= 0x0D
    ||| n == 0x20
    ||| n == 0x85
    ||| n == 0xA0
    ||| n == 0x1680
    ||| 0x2000 <= n <= 0x200A
    ||| n == 0x2028
    ||| n == 0x2029
    ||| n == 0x202F
    ||| n == 0x205F
    ||| n == 0x3000
}

/// Without the whitespace in front.
pub open spec fn trimmed_start(s: Seq<char>) -> Seq<char> {
    s.skip(count_before(s, |c: char| !is_white(c)) as int)
}

/// Without the whitespace at the end.
pub open spec fn trimmed_end(s: Seq<char>) -> Seq<char>
    decreases s.len(),
{
    if s.len() > 0 && is_white(s.last()) {
        trimmed_end(s.drop_last())
    } else {
        s
    }
}

/// Without the whitespace at either end.
pub open spec fn trimmed(s: Seq<char>) -> Seq<char> {
    trimmed_end(trimmed_start(s))
}

pub fn is_whitespace(c: char) -> (r: bool)
    ensures
        r == is_white(c),
{
    let n: u32 = c as u32;
    (0x09 <= n && n <= 0x0D) || n == 0x20 || n == 0x85 || n == 0xA0 || n == 0x1680 || (0x2000 <= n
        && n <= 0x200A) || n == 0x2028 || n == 0x2029 || n == 0x202F || n == 0x205F || n == 0x3000
}

/// Where the text starts and ends without the whitespace at either end.
pub fn trim_bounds(s: &[char]) -> (r: (usize, usize))
    ensures
        r.0 <= r.1 <= s@.len(),
        s@.subrange(r.0 as int, r.1 as int) == trimmed(s@),
{
    let len: usize = s.len();
    let mut start: usize = 0;
    while start < len && is_whitespace(s[start])
        invariant
            start <= len == s@.len(),
            forall|i: int| 0 <= i < start ==> is_white(#[trigger] s@[i]),
        decreases len - start,
    {
        start = start + 1;
    }
    proof {
        lemma_count_before(s@, |c: char| !is_white(c), start as nat);
    }
    let mut end: usize = len;
    assert(s@.subrange(start as int, len as int) =~= s@.skip(start as int));
    while end > start && is_whitespace(s[end - 1])
        invariant
            start <= end <= len == s@.len(),
            trimmed_end(s@.subrange(start as int, end as int)) == trimmed(s@),
        decreases end,
    {
        assert(s@.subrange(start as int, end as int).drop_last() =~= s@.subrange(
            start as int,
            end - 1,
        ));
        end = end - 1;
    }
    (start, end)
}

/// The text without the whitespace at either end.
pub fn trim(s: &[char]) -> (r: &[char])
    ensures
        r@ == trimmed(s@),
{
    let (start, end) = trim_bounds(s);
    slice_subrange(s, start, end)
}

/// The number that a text spells as a `usize`: digits, with or without a plus
/// sign, and not too large.
pub open spec fn spelled_usize(s: Seq<char>) -> Option<usize> {
    spelled_digits(
        if s.len() > 0 && s[0] == '+' {
            s.skip(1)
        } else {
            s
        },
    )
}

pub open spec fn spelled_digits(digits: Seq<char>) -> Option<usize> {
    if digits.len() > 0 && all_digits(digits) && digits_value(digits) <= usize::MAX {
        Some(digits_value(digits) as usize)
    } else {
        None
    }
}

/// More digits never make the number smaller.
proof fn lemma_digits_grow(s: Seq<char>, i: int)
    requires
        0 <= i <= s.len(),
    ensures
        digits_value(s.take(i)) <= digits_value(s),
    decreases s.len(),
{
    if i < s.len() {
        lemma_digits_grow(s.drop_last(), i);
        assert(s.drop_last().take(i) =~= s.take(i));
    } else {
        assert(s.take(i) =~= s);
    }
}

/// The number that a text spells as a `usize`.
pub fn parse_usize(s: &[char]) -> (r: Option<usize>)
    ensures
        r == spelled_usize(s@),
{
    let digits: &[char] = if s.len() > 0 && s[0] == '+' {
        slice_subrange(s, 1, s.len())
    } else {
        s
    };
    if digits.len() == 0 {
        return None;
    }
    let mut n: usize = 0;
    assert(digits@.take(0) =~= Seq::empty());
    for i in 0..digits.len()
        invariant
            n == digits_value(digits@.take(i as int)),
            forall|j: int| 0 <= j < i ==> is_digit(#[trigger] digits@[j]),
            spelled_usize(s@) == spelled_digits(digits@),
    {
        let c: char = digits[i];
        if !is_decimal_digit(c) {
            assert(!is_digit(digits@[i as int]));
            return None;
        }
        let next: u128 = 10 * n as u128 + digit_of(c) as u128;
        assert(digits@.take(i + 1).drop_last() =~= digits@.take(i as int));
        if next > usize::MAX as u128 {
            proof {
                lemma_digits_grow(digits@, i + 1);
            }
            return None;
        }
        n = next as usize;
    }
    assert(digits@.take(digits@.len() as int) =~= digits@);
    Some(n)
}

/// Text of ASCII and whitespace.
pub open spec fn is_plain_text(s: Seq<char>) -> bool {
    forall|i: int| 0 <= i < s.len() ==> (#[trigger] s[i]) as u32 <= 0x7F || is_white(s[i])
}

/// A text with `A` to `Z` in lower case.
pub open spec fn lowered(s: Seq<char>) -> Seq<char> {
    s.map_values(|c: char| lower(c))
}

pub open spec fn all_white(s: Seq<char>) -> bool {
    forall|i: int| 0 <= i < s.len() ==> is_white(#[trigger] s[i])
}

/// The digit that stands for a number below ten.
pub open spec fn digit_char(d: nat) -> char {
    ('0' as u32 + d) as char
}

/// A number in decimal digits, without leading zeros.
pub open spec fn decimal_text(n: nat) -> Seq<char>
    decreases n,
{
    if n < 10 {
        seq![digit_char(n)]
    } else {
        decimal_text(n / 10).push(digit_char(n % 10))
    }
}

/// The decimal digits of a number spell the number, and the first one is no
/// zero unless it is the only one.
pub proof fn law_decimal_text(n: nat)
    ensures
        all_digits(decimal_text(n)),
        digits_value(decimal_text(n)) == n,
        decimal_text(n).len() > 0,
        decimal_text(n).len() > 1 ==> decimal_text(n)[0] != '0',
    decreases n,
{
    let s = decimal_text(n);
    reveal_with_fuel(digits_value, 2);
    if n < 10 {
        assert(s.drop_last() =~= Seq::empty());
        assert(s.last() == digit_char(n));
    } else {
        law_decimal_text(n / 10);
        let rest = decimal_text(n / 10);
        assert(s.drop_last() =~= rest);
        assert(s.last() == digit_char(n % 10));
        assert forall|i: int| 0 <= i < s.len() implies is_digit(#[trigger] s[i]) by {
            if i < rest.len() {
                assert(s[i] == rest[i]);
            }
        }
        assert(s[0] == rest[0]);
        if rest.len() == 1 && rest[0] == '0' {
            assert(rest.drop_last() =~= Seq::empty());
            assert(digits_value(rest) == 0);
        }
    }
}

/// The digit that stands for a number below ten, as a text.
pub fn digit_str(d: u64) -> (r: &'static str)
    requires
        d < 10,
    ensures
        r@ == seq![digit_char(d as nat)],
{
    proof {
        reveal_strlit("0");
        reveal_strlit("1");
        reveal_strlit("2");
        reveal_strlit("3");
        reveal_strlit("4");
        reveal_strlit("5");
        reveal_strlit("6");
        reveal_strlit("7");
        reveal_strlit("8");
        reveal_strlit("9");
    }
    let r: &'static str = match d {
        0 => "0",
        1 => "1",
        2 => "2",
        3 => "3",
        4 => "4",
        5 => "5",
        6 => "6",
        7 => "7",
        8 => "8",
        _ => "9",
    };
    assert(r@ =~= seq![digit_char(d as nat)]);
    r
}

/// Put a number in decimal digits behind a text.
pub fn append_decimal(out: &mut String, n: u64)
    ensures
        final(out)@ == old(out)@ + decimal_text(n as nat),
    decreases n,
{
    if n >= 10 {
        append_decimal(out, n / 10);
    }
    let ghost before = out@;
    out.append(digit_str(n % 10));
    assert(out@ =~= before.push(digit_char((n % 10) as nat)));
    assert(out@ =~= old(out)@ + decimal_text(n as nat));
}

/// A text in lower case, by the rules of Unicode.
pub uninterp spec fn lowercase(s: Seq<char>) -> Seq<char>;

/// `str::to_lowercase`: the text in lower case, by the rules of Unicode, which
/// are not spelled out here. Of ASCII and whitespace, the letters `A` to `Z`
/// become `a` to `z` and nothing else changes.
#[verifier::external_body]
pub(crate) fn to_lowercase(s: &str) -> (r: String)
    ensures
        r@ == lowercase(s@),
        is_plain_text(s@) ==> r@ == lowered(s@),
{
    s.to_lowercase()
}

/// What `count_before` counts, of every text.
pub proof fn lemma_counted(s: Seq<char>, stop: spec_fn(char) -> bool)
    ensures
        count_before(s, stop) <= s.len(),
        forall|i: int| 0 <= i < count_before(s, stop) ==> !stop(#[trigger] s[i]),
        count_before(s, stop) < s.len() ==> stop(s[count_before(s, stop) as int]),
    decreases s.len(),
{
    if s.len() > 0 && !stop(s[0]) {
        let rest = s.drop_first();
        lemma_counted(rest, stop);
        assert forall|i: int| 0 <= i < count_before(s, stop) implies !stop(#[trigger] s[i]) by {
            if i > 0 {
                assert(rest[i - 1] == s[i]);
            }
        }
    }
}

/// Whitespace in front goes, and what follows starts as it did.
pub proof fn lemma_trimmed_start(a: Seq<char>, s: Seq<char>)
    requires
        all_white(a),
    ensures
        trimmed_start(a + s) == trimmed_start(s),
{
    let stop = |c: char| !is_white(c);
    let n = count_before(s, stop);
    lemma_counted(s, stop);
    let t = a + s;
    assert forall|i: int| 0 <= i < a.len() + n implies !stop(#[trigger] t[i]) by {
        if i < a.len() {
            assert(t[i] == a[i]);
        } else {
            assert(t[i] == s[i - a.len()]);
        }
    }
    lemma_count_before(t, stop, a.len() + n);
    assert(t.skip((a.len() + n) as int) =~= s.skip(n as int));
}

/// What follows a text does not change what is trimmed in front of it, unless
/// all of it goes.
pub proof fn lemma_trimmed_before(s: Seq<char>, b: Seq<char>)
    requires
        all_white(s) ==> b.len() == 0 || !is_white(b[0]),
    ensures
        trimmed_start(s + b) == trimmed_start(s) + b,
{
    let stop = |c: char| !is_white(c);
    let n = count_before(s, stop);
    lemma_counted(s, stop);
    let t = s + b;
    assert forall|i: int| 0 <= i < n implies !stop(#[trigger] t[i]) by {
        assert(t[i] == s[i]);
    }
    if n == s.len() {
        assert(all_white(s)) by {
            assert forall|i: int| 0 <= i < s.len() implies is_white(#[trigger] s[i]) by {
                assert(!stop(s[i]));
            }
        }
    } else {
        assert(stop(s[n as int]));
    }
    lemma_count_before(t, stop, n);
    assert(t.skip(n as int) =~= s.skip(n as int) + b);
}

/// Whitespace behind a text goes.
pub proof fn lemma_trimmed_end(s: Seq<char>, b: Seq<char>)
    requires
        all_white(b),
    ensures
        trimmed_end(s + b) == trimmed_end(s),
    decreases b.len(),
{
    if b.len() > 0 {
        let t = s + b;
        assert(is_white(b[b.len() - 1]));
        assert(t.last() == b[b.len() - 1]);
        assert(t.drop_last() =~= s + b.drop_last());
        lemma_trimmed_end(s, b.drop_last());
    } else {
        assert(s + b =~= s);
    }
}

/// Nothing is left of whitespace.
proof fn lemma_trimmed_white(s: Seq<char>)
    requires
        all_white(s),
    ensures
        trimmed(s) == Seq::<char>::empty(),
        trimmed_start(s) == Seq::<char>::empty(),
{
    lemma_count_before(s, |c: char| !is_white(c), s.len());
    assert(s.skip(s.len() as int) =~= Seq::empty());
}

/// Whitespace around a text makes no difference once it is trimmed.
pub proof fn law_trimmed(a: Seq<char>, s: Seq<char>, b: Seq<char>)
    requires
        all_white(a),
        all_white(b),
    ensures
        trimmed(a + s + b) == trimmed(s),
{
    assert(a + s + b =~= a + (s + b));
    lemma_trimmed_start(a, s + b);
    if all_white(s) {
        lemma_trimmed_white(s);
        assert(all_white(s + b));
        lemma_trimmed_white(s + b);
    } else {
        lemma_trimmed_before(s, b);
        lemma_trimmed_end(trimmed_start(s), b);
    }
}

/// Trimming what is already trimmed in front.
pub proof fn lemma_trimmed_twice(s: Seq<char>)
    ensures
        trimmed(trimmed_start(s)) == trimmed(s),
{
    let stop = |c: char| !is_white(c);
    lemma_counted(s, stop);
    let t = trimmed_start(s);
    if t.len() > 0 {
        assert(t[0] == s[count_before(s, stop) as int]);
    }
    lemma_count_before(t, stop, 0);
    assert(t.skip(0) =~= t);
}

/// Trimming and lower case go together in either order.
pub proof fn law_lowered(s: Seq<char>)
    ensures
        trimmed(lowered(s)) == lowered(trimmed(s)),
        trimmed_start(lowered(s)) == lowered(trimmed_start(s)),
{
    let stop = |c: char| !is_white(c);
    let n = count_before(s, stop);
    let low = lowered(s);
    lemma_counted(s, stop);
    assert forall|i: int| 0 <= i < n implies !stop(#[trigger] low[i]) by {
        assert(!stop(s[i]));
    }
    lemma_count_before(low, stop, n);
    assert(low.skip(n as int) =~= lowered(s.skip(n as int)));
    lemma_lowered_end(s.skip(n as int));
}

proof fn lemma_lowered_end(s: Seq<char>)
    ensures
        trimmed_end(lowered(s)) == lowered(trimmed_end(s)),
    decreases s.len(),
{
    if s.len() > 0 {
        assert(lowered(s).drop_last() =~= lowered(s.drop_last()));
        assert(lowered(s).last() == lower(s.last()));
        lemma_lowered_end(s.drop_last());
    }
}

/// Digits in front weigh ten times as much for each digit that follows them, and a
/// digit by itself is what it says.
pub proof fn law_digits_value(a: Seq<char>, b: Seq<char>)
    ensures
        digits_value(a + b) == digits_value(a) * big::ten_to(b.len()) + digits_value(b),
        a.len() == 1 && is_digit(a[0]) ==> digits_value(a) == a[0] as nat - 48,
        a.len() == 0 ==> digits_value(a) == 0,
    decreases b.len(),
{
    reveal_with_fuel(digits_value, 2);
    if a.len() == 1 {
        assert(a.drop_last() =~= Seq::empty());
    }
    if b.len() == 0 {
        assert(a + b =~= a);
        assert(big::ten_to(0) == 1 && digits_value(a) * 1 == digits_value(a));
    } else {
        law_digits_value(a, b.drop_last());
        assert((a + b).drop_last() =~= a + b.drop_last());
        let x = digits_value(a);
        let y = big::ten_to((b.len() - 1) as nat);
        assert(10 * (x * y) == x * (10 * y)) by (nonlinear_arith);
    }
}

/// Trimming takes whitespace off either end, and all of it.
pub proof fn law_trimmed_parts(s: Seq<char>) -> (r: (Seq<char>, Seq<char>))
    ensures
        s == r.0 + trimmed(s) + r.1,
        all_white(r.0),
        all_white(r.1),
        trimmed(s).len() > 0 ==> !is_white(trimmed(s)[0]) && !is_white(
            trimmed(s)[trimmed(s).len() - 1],
        ),
{
    let stop = |c: char| !is_white(c);
    let n = count_before(s, stop) as int;
    lemma_counted(s, stop);
    let a = s.take(n);
    let t = trimmed_start(s);
    assert forall|i: int| 0 <= i < a.len() implies is_white(#[trigger] a[i]) by {
        assert(!stop(s[i]));
    }
    let b = lemma_trimmed_end_parts(t);
    assert(s =~= a + t);
    assert(a + (trimmed(s) + b) =~= a + trimmed(s) + b);
    if trimmed(s).len() > 0 {
        assert(trimmed(s)[0] == t[0]);
        assert(t[0] == s[n]);
    }
    (a, b)
}

proof fn lemma_trimmed_end_parts(s: Seq<char>) -> (b: Seq<char>)
    ensures
        s == trimmed_end(s) + b,
        all_white(b),
        trimmed_end(s).len() > 0 ==> !is_white(trimmed_end(s)[trimmed_end(s).len() - 1]),
    decreases s.len(),
{
    if s.len() > 0 && is_white(s.last()) {
        let b = lemma_trimmed_end_parts(s.drop_last());
        let r = b.push(s.last());
        let x = trimmed_end(s.drop_last());
        assert(s =~= s.drop_last().push(s.last()));
        assert((x + b).push(s.last()) =~= x + r);
        r
    } else {
        assert(s =~= s + Seq::<char>::empty());
        Seq::empty()
    }
}

/// Digits, perhaps with a plus in front, are the number that they spell if it can
/// be counted, and nothing else is a number.
pub proof fn law_whole_number(s: Seq<char>)
    ensures
        s.len() > 0 && all_digits(s) && digits_value(s) <= usize::MAX ==> spelled_usize(s) == Some(
            digits_value(s) as usize,
        ) && spelled_usize(seq!['+'] + s) == Some(digits_value(s) as usize),
        s.len() > 0 && all_digits(s) && digits_value(s) > usize::MAX ==> spelled_usize(s) is None
            && spelled_usize(seq!['+'] + s) is None,
        spelled_usize(s) is Some ==> s.len() > 0 && all_digits(s.skip(1)) && (is_digit(s[0]) || (
        s[0] == '+' && s.len() > 1)),
{
    let t = seq!['+'] + s;
    assert(t[0] == '+' && t.skip(1) =~= s);
    if s.len() > 0 && all_digits(s) {
        assert(is_digit(s[0]));
    }
    if spelled_usize(s) is Some && s[0] != '+' {
        assert(is_digit(s[0]));
        assert forall|i: int| 0 <= i < s.skip(1).len() implies is_digit(#[trigger] s.skip(1)[i]) by {
            assert(is_digit(s[i + 1]));
        }
    }
}

} // verus!
