//! Numbers as text, and looking into text.
use crate::double::{one_in_units, Double};
use crate::rounding::{distance, half_even, lemma_half_even_nearest, split, units, HIDDEN_BIT};
use vstd::arithmetic::div_mod::{lemma_fundamental_div_mod, lemma_fundamental_div_mod_converse};
use vstd::arithmetic::power2::{lemma_pow2_adds, lemma_pow2_pos, lemma_pow2_unfold, pow2};
use vstd::prelude::*;
use vstd::string::*;

verus! {

/// The digit with the given value.
pub open spec fn digit(d: nat) -> char {
    (48 + d) as char
}

/// A number in decimal.
pub open spec fn decimal(n: nat) -> Seq<char>
    decreases n,
{
    if n < 10 {
        seq![digit(n)]
    } else {
        decimal(n / 10).push(digit(n % 10))
    }
}

/// A number in decimal, with its sign where it is below zero.
pub open spec fn signed_decimal(v: int) -> Seq<char> {
    if v < 0 {
        seq!['-'] + decimal((-v) as nat)
    } else {
        decimal(v as nat)
    }
}

/// A hexadecimal digit in lower case.
pub open spec fn hex_digit(d: nat) -> char {
    if d < 10 {
        digit(d)
    } else {
        (87 + d) as char
    }
}

/// A byte as two hexadecimal digits.
pub open spec fn hex_byte(b: u8) -> Seq<char> {
    seq![hex_digit((b / 16) as nat), hex_digit((b % 16) as nat)]
}

/// A finite number rounded to hundredths, a tie going to the even one.
pub open spec fn hundredths(x: Double) -> nat {
    half_even(100 * units(x.magnitude()), one_in_units())
}

/// A number with two decimal places.
pub open spec fn two_places(x: Double) -> Seq<char> {
    if x.nan() {
        "NaN"@
    } else {
        let sign = if x.negative() {
            seq!['-']
        } else {
            Seq::empty()
        };
        if !x.finite() {
            sign + "inf"@
        } else {
            let h = hundredths(x);
            sign + decimal(h / 100) + seq!['.', digit(h / 10 % 10), digit(h % 10)]
        }
    }
}

/// Appends one digit.
fn append_digit(text: &mut String, d: u8)
    requires
        d < 10,
    ensures
        final(text)@ == old(text)@.push(digit(d as nat)),
{
    proof {
        reveal_strlit("0");
        reveal_strlit("1");
        reveal_strlit("2");
        reveal_strlit("3");
        reveal_strlit("4");
        reveal_strlit("5");
        reveal_strlit("6");
        reveal_strlit("7");
        reveal_strlit("8");
        reveal_strlit("9");
    }
    let ghost was = text@;
    let one: &str = match d {
        0 => "0",
        1 => "1",
        2 => "2",
        3 => "3",
        4 => "4",
        5 => "5",
        6 => "6",
        7 => "7",
        8 => "8",
        _ => "9",
    };
    text.append(one);
    assert(one@ =~= seq![digit(d as nat)]);
    assert(text@ =~= was.push(digit(d as nat)));
}

/// Appends a number in decimal.
pub fn append_number(text: &mut String, n: u64)
    ensures
        final(text)@ == old(text)@ + decimal(n as nat),
    decreases n,
{
    let ghost was = text@;
    if n >= 10 {
        append_number(text, n / 10);
    }
    append_digit(text, (n % 10) as u8);
    assert(text@ =~= was + decimal(n as nat));
}

/// Appends a number in decimal, with its sign where it is below zero.
pub fn append_signed(text: &mut String, v: i32)
    ensures
        final(text)@ == old(text)@ + signed_decimal(v as int),
{
    let ghost was = text@;
    if v < 0 {
        proof {
            reveal_strlit("-");
        }
        text.append("-");
        append_number(text, (-(v as i64)) as u64);
        assert("-"@ =~= seq!['-']);
        assert(text@ =~= was + signed_decimal(v as int));
    } else {
        append_number(text, v as u64);
    }
}

fn append_hex_digit(text: &mut String, d: u8)
    requires
        d < 16,
    ensures
        final(text)@ == old(text)@.push(hex_digit(d as nat)),
{
    if d < 10 {
        append_digit(text, d);
    } else {
        proof {
            reveal_strlit("a");
            reveal_strlit("b");
            reveal_strlit("c");
            reveal_strlit("d");
            reveal_strlit("e");
            reveal_strlit("f");
        }
        let ghost was = text@;
        let one: &str = match d {
            10 => "a",
            11 => "b",
            12 => "c",
            13 => "d",
            14 => "e",
            _ => "f",
        };
        text.append(one);
        assert(one@ =~= seq![hex_digit(d as nat)]);
        assert(text@ =~= was.push(hex_digit(d as nat)));
    }
}

/// Appends a byte as two hexadecimal digits.
pub fn append_hex(text: &mut String, b: u8)
    ensures
        final(text)@ == old(text)@ + hex_byte(b),
{
    let ghost was = text@;
    append_hex_digit(text, b / 16);
    append_hex_digit(text, b % 16);
    assert(text@ =~= was + hex_byte(b));
}

/// The number whose decimal digits, lowest first, are given.
spec fn digits_value(digits: Seq<u8>) -> nat
    decreases digits.len(),
{
    if digits.len() == 0 {
        0
    } else {
        digits[0] as nat + 10 * digits_value(digits.drop_first())
    }
}

/// Decimal digits, lowest first, without a zero in front.
spec fn digits_wf(digits: Seq<u8>) -> bool {
    &&& digits.len() > 0
    &&& forall|i: int| 0 <= i < digits.len() ==> #[trigger] digits[i] < 10
    &&& digits.len() > 1 ==> digits.last() != 0
}

/// Digits from the one at `i` up.
proof fn lemma_digits_tail(digits: Seq<u8>, i: int)
    requires
        0 <= i < digits.len(),
    ensures
        digits_value(digits.skip(i)) == digits[i] + 10 * digits_value(digits.skip(i + 1)),
{
    assert(digits.skip(i).drop_first() =~= digits.skip(i + 1));
}

/// The digits, highest first, are the number in decimal.
proof fn lemma_digits_decimal(digits: Seq<u8>)
    requires
        digits_wf(digits),
    ensures
        decimal(digits_value(digits)) == digits.reverse().map_values(|d: u8| digit(d as nat)),
        digits.len() > 1 ==> digits_value(digits) >= 10,
    decreases digits.len(),
{
    let text = digits.reverse().map_values(|d: u8| digit(d as nat));
    let rest = digits.drop_first();
    if digits.len() == 1 {
        assert(rest =~= Seq::empty());
        assert(digits_value(digits) == digits[0]) by {
            assert(digits_value(rest) == 0);
        }
        assert(text =~= seq![digit(digits[0] as nat)]);
    } else {
        assert(rest.last() == digits.last());
        lemma_digits_decimal(rest);
        let v = digits_value(rest);
        assert(v > 0) by {
            if rest.len() == 1 {
                assert(rest.drop_first() =~= Seq::empty());
                assert(digits_value(rest.drop_first()) == 0);
            }
        }
        assert(digits_value(digits) / 10 == v);
        assert(digits_value(digits) % 10 == digits[0]);
        assert(text =~= rest.reverse().map_values(|d: u8| digit(d as nat)).push(
            digit(digits[0] as nat),
        ));
    }
}

/// The digits of a number, lowest first.
fn digits_of(n: u64) -> (digits: Vec<u8>)
    ensures
        digits_wf(digits@),
        digits_value(digits@) == n,
    decreases n,
{
    let mut digits: Vec<u8> = Vec::new();
    digits.push((n % 10) as u8);
    if n >= 10 {
        let mut rest: Vec<u8> = digits_of(n / 10);
        let ghost tail = rest@;
        proof {
            assert(digits@.len() == 1);
        }
        digits.append(&mut rest);
        assert(digits@.drop_first() =~= tail);
        assert(digits_value(tail) == n / 10);
        assert(digits@.len() == tail.len() + 1);
        assert(digits@.last() == tail.last());
        assert(tail.last() != 0) by {
            if tail.len() == 1 {
                assert(tail.drop_first() =~= Seq::empty());
                assert(digits_value(tail.drop_first()) == 0);
            }
        }
        assert forall|i: int| 0 <= i < digits@.len() implies #[trigger] digits@[i] < 10 by {
            if i > 0 {
                assert(digits@[i] == tail[i - 1]);
            }
        }
    } else {
        assert(digits@.drop_first() =~= Seq::empty());
        assert(digits_value(digits@.drop_first()) == 0);
    }
    digits
}

/// Doubles a number in digits.
fn double_digits(digits: &Vec<u8>) -> (twice: Vec<u8>)
    requires
        digits_wf(digits@),
        digits_value(digits@) > 0,
    ensures
        digits_wf(twice@),
        digits_value(twice@) == 2 * digits_value(digits@),
{
    let mut twice: Vec<u8> = Vec::new();
    let mut carry: u8 = 0;
    let mut i: usize = 0;
    let ghost all = digits@;
    proof {
        assert(all.skip(0) =~= all);
        assert(power10(0) == 1);
    }
    while i < digits.len()
        invariant
            all == digits@,
            digits_wf(all),
            i <= digits.len(),
            carry <= 1,
            twice@.len() == i,
            forall|j: int| 0 <= j < i ==> #[trigger] twice@[j] < 10,
            i > 0 && carry == 0 ==> (i == all.len() && all.len() > 0 && all.last() != 0
                ==> twice@.last() != 0),
            digits_value(twice@) + power10(i as nat) * (carry + 2 * digits_value(all.skip(i as int)))
                == 2 * digits_value(all),
        decreases digits.len() - i,
    {
        let v: u8 = 2 * digits[i] + carry;
        let ghost was = twice@;
        let ghost old_carry = carry;
        proof {
            lemma_digits_tail(all, i as int);
        }
        if v >= 10 {
            twice.push(v - 10);
            carry = 1;
        } else {
            twice.push(v);
            carry = 0;
        }
        proof {
            lemma_pushed_value(was, twice@.last());
            let p = power10(i as nat);
            let t = digits_value(all.skip(i + 1));
            let d = twice@.last() as int;
            assert(power10((i + 1) as nat) == 10 * p);
            assert(p * (old_carry + 2 * (all[i as int] + 10 * t)) == p * d + 10 * p * (carry + 2 * t))
                by (nonlinear_arith)
                requires
                    old_carry + 2 * all[i as int] == d + 10 * carry,
            ;
        }
        i = i + 1;
    }
    proof {
        assert(all.skip(i as int) =~= Seq::empty());
        assert(digits_value(all.skip(i as int)) == 0);
        let p = power10(i as nat);
        assert(p * (carry + 2 * 0) == p * carry) by (nonlinear_arith);
        if carry == 0 {
            assert(p * 0 == 0) by (nonlinear_arith);
        } else {
            lemma_pushed_value(twice@, 1);
            assert(p * 1 == p) by (nonlinear_arith);
        }
    }
    if carry == 1 {
        twice.push(1);
    } else {
        proof {
            if all.len() == 1 {
                assert(twice@.len() == 1);
            }
        }
    }
    twice
}

spec fn power10(k: nat) -> nat
    decreases k,
{
    if k == 0 {
        1
    } else {
        10 * power10((k - 1) as nat)
    }
}

/// One digit more in front.
proof fn lemma_pushed_value(digits: Seq<u8>, d: u8)
    ensures
        digits_value(digits.push(d)) == digits_value(digits) + power10(digits.len()) * d,
    decreases digits.len(),
{
    if digits.len() == 0 {
        assert(digits.push(d).drop_first() =~= Seq::empty());
        assert(digits_value(digits.push(d).drop_first()) == 0);
        assert(1 * d == d);
    } else {
        assert(digits.push(d).drop_first() =~= digits.drop_first().push(d));
        lemma_pushed_value(digits.drop_first(), d);
        let p = power10((digits.len() - 1) as nat);
        assert(10 * (p * d) == (10 * p) * d) by (nonlinear_arith);
    }
}

/// Scaling both sides of a ratio changes nothing.
proof fn lemma_half_even_scaled(n: nat, d: nat, p: nat)
    requires
        d > 0,
        p > 0,
    ensures
        half_even(n * p, d * p) == half_even(n, d),
{
    let q = n / d;
    let r = n % d;
    lemma_fundamental_div_mod(n as int, d as int);
    assert(n * p == q * (d * p) + r * p) by (nonlinear_arith)
        requires
            n == d * q + r,
    ;
    assert(0 <= r * p < d * p) by (nonlinear_arith)
        requires
            0 <= r < d,
            p > 0,
    ;
    lemma_fundamental_div_mod_converse((n * p) as int, (d * p) as int, q as int, (r * p) as int);
    assert((2 * (r * p) < d * p) == (2 * r < d)) by (nonlinear_arith)
        requires
            p > 0,
    ;
    assert((2 * (r * p) == d * p) == (2 * r == d)) by (nonlinear_arith)
        requires
            p > 0,
    ;
}

/// Appends a large whole number: `m` doubled `k` times.
fn append_shifted(text: &mut String, m: u64, k: u32)
    requires
        m > 0,
    ensures
        final(text)@ == old(text)@ + decimal(m as nat * pow2(k as nat)),
{
    let mut digits: Vec<u8> = digits_of(m);
    let mut done: u32 = 0;
    proof {
        vstd::arithmetic::power2::lemma2_to64();
        vstd::arithmetic::mul::lemma_mul_basics(m as int);
    }
    while done < k
        invariant
            m > 0,
            done <= k,
            digits_wf(digits@),
            digits_value(digits@) == m as nat * pow2(done as nat),
        decreases k - done,
    {
        proof {
            lemma_pow2_pos(done as nat);
            assert(m as nat * pow2(done as nat) > 0) by (nonlinear_arith)
                requires
                    m > 0,
                    pow2(done as nat) > 0,
            ;
            lemma_pow2_unfold((done + 1) as nat);
            assert(2 * (m * pow2(done as nat)) == m * (2 * pow2(done as nat)))
                by (nonlinear_arith);
        }
        digits = double_digits(&digits);
        done = done + 1;
    }
    let ghost was = text@;
    let ghost shown = digits@.reverse().map_values(|d: u8| digit(d as nat));
    proof {
        lemma_digits_decimal(digits@);
        assert(was + shown.take(0) =~= was);
    }
    let mut i: usize = digits.len();
    while i > 0
        invariant
            i <= digits@.len(),
            digits_wf(digits@),
            shown == digits@.reverse().map_values(|d: u8| digit(d as nat)),
            text@ == was + shown.take(digits@.len() - i),
        decreases i,
    {
        i = i - 1;
        let ghost had = text@;
        append_digit(text, digits[i]);
        proof {
            let n = digits@.len() - i;
            assert(shown.take(n) =~= shown.take(n - 1).push(shown[n - 1]));
            assert(shown[n - 1] == digit(digits@[i as int] as nat));
            assert(text@ =~= was + shown.take(n));
        }
    }
    assert(shown.take(digits@.len() as int) =~= shown);
}

/// A finite number in hundredths, where it is less than 2^52.
fn hundredths_of(m: u64, e: u32) -> (h: u64)
    requires
        m < 2 * HIDDEN_BIT,
        e < 1074,
    ensures
        h == half_even((100 * (m * pow2(e as nat))) as nat, one_in_units()),
{
    let shift: u32 = 1074 - e;
    let top: u64 = 100 * m;
    proof {
        lemma_pow2_pos(e as nat);
        lemma_pow2_pos(shift as nat);
        lemma_pow2_adds(shift as nat, e as nat);
        assert(100 * (m * pow2(e as nat)) == top * pow2(e as nat)) by (nonlinear_arith)
            requires
                top == 100 * m,
        ;
        lemma_half_even_scaled(top as nat, pow2(shift as nat), pow2(e as nat));
    }
    if shift >= 62 {
        proof {
            vstd::arithmetic::power2::lemma2_to64_rest();
            if shift > 62 {
                vstd::arithmetic::power2::lemma_pow2_strictly_increases(62, shift as nat);
            }
            vstd::arithmetic::div_mod::lemma_basic_div(top as int, pow2(shift as nat) as int);
            vstd::arithmetic::div_mod::lemma_small_mod(top as nat, pow2(shift as nat));
        }
        return 0;
    }
    let mut p: u64 = 1;
    let mut k: u32 = 0;
    proof {
        vstd::arithmetic::power2::lemma2_to64();
        vstd::arithmetic::power2::lemma2_to64_rest();
    }
    while k < shift
        invariant
            k <= shift < 62,
            p == pow2(k as nat),
            pow2(62) == 0x4000_0000_0000_0000,
        decreases shift - k,
    {
        proof {
            lemma_pow2_unfold((k + 1) as nat);
            vstd::arithmetic::power2::lemma_pow2_strictly_increases((k + 1) as nat, 62);
        }
        p = p * 2;
        k = k + 1;
    }
    let q: u64 = top / p;
    let r: u64 = top % p;
    proof {
        vstd::arithmetic::power2::lemma_pow2_strictly_increases(shift as nat, 62);
        assert(q <= top) by (nonlinear_arith)
            requires
                q == top as int / p as int,
                p >= 1,
                top >= 0,
        ;
    }
    if 2 * r < p || (2 * r == p && q % 2 == 0) {
        q
    } else {
        q + 1
    }
}

/// Appends a number with two decimal places.
pub fn append_two_places(text: &mut String, x: Double)
    ensures
        final(text)@ == old(text)@ + two_places(x),
{
    let ghost was = text@;
    if x.is_nan() {
        text.append("NaN");
        return;
    }
    let ghost sign: Seq<char> = if x.negative() {
        seq!['-']
    } else {
        Seq::empty()
    };
    proof {
        reveal_strlit("-");
        reveal_strlit(".");
        reveal_strlit(".00");
        assert("-"@ =~= seq!['-']);
        assert("."@ =~= seq!['.']);
        assert(".00"@ =~= seq!['.', '0', '0']);
    }
    if x.is_negative() {
        text.append("-");
    }
    assert(text@ =~= was + sign);
    if !x.is_finite() {
        text.append("inf");
        assert(text@ =~= was + (sign + "inf"@));
        return;
    }
    let (m, e): (u64, u32) = split(x.magnitude_bits());
    let ghost h = hundredths(x);
    if e >= 1074 {
        proof {
            let up = pow2((e - 1074) as nat);
            let w = m as nat * up;
            lemma_pow2_pos(1074);
            lemma_pow2_adds((e - 1074) as nat, 1074);
            assert(100 * (m * pow2(e as nat)) == (100 * w) * one_in_units()) by (nonlinear_arith)
                requires
                    pow2(e as nat) == up * one_in_units(),
                    w == m * up,
            ;
            lemma_fundamental_div_mod_converse(
                ((100 * w) * one_in_units()) as int,
                one_in_units() as int,
                100 * w as int,
                0,
            );
            assert(h == 100 * w);
            assert(h / 100 == w && h / 10 % 10 == 0 && h % 10 == 0);
        }
        append_shifted(text, m, e - 1074);
        text.append(".00");
    } else {
        let v: u64 = hundredths_of(m, e);
        append_number(text, v / 100);
        text.append(".");
        append_digit(text, (v / 10 % 10) as u8);
        append_digit(text, (v % 10) as u8);
    }
    assert(text@ =~= was + two_places(x));
}

/// The characters of a text.
pub(crate) fn chars_of(text: &str) -> (chars: Vec<char>)
    ensures
        chars@ == text@,
{
    let mut chars: Vec<char> = Vec::new();
    for c in it: text.chars()
        invariant
            chars@ == text@.take(it.index()),
            it.seq() == text@,
    {
        chars.push(c);
        assert(chars@ =~= text@.take(it.index() + 1));
    }
    assert(text@.take(text@.len() as int) =~= text@);
    chars
}

/// Whether two texts are the same.
pub(crate) fn same_text(a: &String, b: &str) -> (same: bool)
    ensures
        same == (a@ == b@),
{
    *a == String::from_str(b)
}

/// Whether `pattern` stands in `text` at the given place.
pub open spec fn stands_at(text: Seq<char>, pattern: Seq<char>, at: int) -> bool {
    0 <= at && at + pattern.len() <= text.len() && text.subrange(at, at + pattern.len()) == pattern
}

/// Whether `pattern` stands anywhere in `text`.
pub open spec fn holds(text: Seq<char>, pattern: Seq<char>) -> bool {
    exists|at: int| stands_at(text, pattern, at)
}

/// Whether `text` ends with `pattern`.
pub open spec fn ends_with(text: Seq<char>, pattern: Seq<char>) -> bool {
    stands_at(text, pattern, text.len() - pattern.len())
}

fn is_at(text: &Vec<char>, pattern: &Vec<char>, at: usize) -> (r: bool)
    requires
        at <= text.len(),
    ensures
        r == stands_at(text@, pattern@, at as int),
{
    if pattern.len() > text.len() - at {
        return false;
    }
    let mut i: usize = 0;
    while i < pattern.len()
        invariant
            at + pattern.len() <= text.len(),
            i <= pattern.len(),
            forall|j: int| 0 <= j < i ==> text@[at + j] == #[trigger] pattern@[j],
        decreases pattern.len() - i,
    {
        if text[at + i] != pattern[i] {
            assert(text@.subrange(at as int, at + pattern@.len())[i as int] != pattern@[i as int]);
            return false;
        }
        i = i + 1;
    }
    assert(text@.subrange(at as int, at + pattern@.len()) =~= pattern@);
    true
}

/// Whether `pattern` stands anywhere in `text`.
pub(crate) fn text_holds(text: &Vec<char>, pattern: &Vec<char>) -> (r: bool)
    ensures
        r == holds(text@, pattern@),
{
    let mut at: usize = 0;
    while at < text.len()
        invariant
            at <= text.len(),
            forall|i: int| 0 <= i < at ==> !stands_at(text@, pattern@, i),
        decreases text.len() - at,
    {
        if is_at(text, pattern, at) {
            return true;
        }
        at = at + 1;
    }
    is_at(text, pattern, at)
}

/// Whether `text` ends with `pattern`.
pub(crate) fn text_ends_with(text: &Vec<char>, pattern: &Vec<char>) -> (r: bool)
    ensures
        r == ends_with(text@, pattern@),
{
    text.len() >= pattern.len() && is_at(text, pattern, text.len() - pattern.len())
}

/// The value of a digit.
pub open spec fn digit_value(c: char) -> nat {
    (c as int - 48) as nat
}

/// The number that a decimal text reads as.
pub open spec fn read_decimal(text: Seq<char>) -> nat
    decreases text.len(),
{
    if text.len() == 0 {
        0
    } else {
        10 * read_decimal(text.drop_last()) + digit_value(text.last())
    }
}

/// A number in decimal reads back as itself, and has digits only.
pub proof fn law_decimal_reads_back(n: nat)
    ensures
        read_decimal(decimal(n)) == n,
        decimal(n).len() > 0,
        forall|i: int| 0 <= i < decimal(n).len() ==> '0' <= #[trigger] decimal(n)[i] <= '9',
    decreases n,
{
    if n < 10 {
        reveal_with_fuel(read_decimal, 2);
        assert(decimal(n).drop_last() =~= Seq::empty());
    } else {
        law_decimal_reads_back(n / 10);
        assert(decimal(n).drop_last() =~= decimal(n / 10));
        assert forall|i: int| 0 <= i < decimal(n).len() implies '0' <= #[trigger] decimal(n)[i]
            <= '9' by {
            if i < decimal(n / 10).len() {
                assert(decimal(n)[i] == decimal(n / 10)[i]);
            }
        }
    }
}

/// No number of hundredths is nearer to a finite number than the one that is
/// written.
pub proof fn law_two_places_nearest(x: Double, other: nat)
    requires
        x.finite(),
    ensures
        distance(
            (100 * units(x.magnitude())) as int,
            (one_in_units() * hundredths(x)) as int,
        ) <= distance((100 * units(x.magnitude())) as int, (one_in_units() * other) as int),
{
    lemma_pow2_pos(1074);
    lemma_half_even_nearest(100 * units(x.magnitude()), one_in_units(), other);
}

/// A number in decimal has no digit more than it needs.
pub proof fn law_decimal_is_short(n: nat)
    ensures
        n > 0 ==> decimal(n)[0] != '0',
        n == 0 ==> decimal(n).len() == 1,
    decreases n,
{
    if n >= 10 {
        law_decimal_is_short(n / 10);
        law_decimal_reads_back(n / 10);
        assert(decimal(n)[0] == decimal(n / 10)[0]);
    }
}

/// A number with its sign starts with a minus exactly where it is below zero, and
/// what follows is its size in decimal.
pub proof fn law_signed_reads_back(v: int)
    ensures
        v >= 0 ==> read_decimal(signed_decimal(v)) == v && signed_decimal(v)[0] != '-',
        v < 0 ==> signed_decimal(v)[0] == '-' && read_decimal(
            signed_decimal(v).subrange(1, signed_decimal(v).len() as int),
        ) == -v,
{
    if v >= 0 {
        law_decimal_reads_back(v as nat);
        assert('0' <= decimal(v as nat)[0]);
    } else {
        law_decimal_reads_back((-v) as nat);
        assert(signed_decimal(v).subrange(1, signed_decimal(v).len() as int) =~= decimal(
            (-v) as nat,
        ));
    }
}

/// The value of a hexadecimal digit in lower case.
pub open spec fn hex_value(c: char) -> nat {
    if c <= '9' {
        (c as int - 48) as nat
    } else {
        (c as int - 87) as nat
    }
}

/// A byte in hexadecimal reads back as itself.
pub proof fn law_hex_reads_back(b: u8)
    ensures
        hex_byte(b).len() == 2,
        16 * hex_value(hex_byte(b)[0]) + hex_value(hex_byte(b)[1]) == b,
        forall|i: int|
            0 <= i < 2 ==> '0' <= #[trigger] hex_byte(b)[i] <= '9' || 'a' <= hex_byte(b)[i] <= 'f',
{
}

/// A finite number with two decimal places starts with a minus where its sign bit
/// is set; what follows are the whole hundreds of its hundredths in decimal, a
/// point, and two digits for the rest.
pub proof fn law_two_places_read_back(x: Double)
    requires
        x.finite(),
    ensures
        ({
            let text = if x.negative() {
                two_places(x).subrange(1, two_places(x).len() as int)
            } else {
                two_places(x)
            };
            let n = text.len() as int;
            &&& x.negative() ==> two_places(x)[0] == '-'
            &&& !x.negative() ==> two_places(x)[0] != '-'
            &&& n >= 4
            &&& text[n - 3] == '.'
            &&& '0' <= text[n - 2] <= '9' && '0' <= text[n - 1] <= '9'
            &&& text.take(n - 3) == decimal(hundredths(x) / 100)
            &&& 100 * read_decimal(text.take(n - 3)) + 10 * digit_value(text[n - 2]) + digit_value(
                text[n - 1],
            ) == hundredths(x)
        }),
{
    let h = hundredths(x);
    let front = decimal(h / 100);
    law_decimal_reads_back(h / 100);
    let text = front + seq!['.', digit(h / 10 % 10), digit(h % 10)];
    assert('0' <= front[0]);
    if x.negative() {
        assert(two_places(x) =~= seq!['-'] + text);
        assert(two_places(x).subrange(1, two_places(x).len() as int) =~= text);
    } else {
        assert(two_places(x) =~= text);
    }
    assert(text.take(text.len() - 3) =~= front);
}

/// What is no finite number is written as `NaN`, `inf` or `-inf`.
pub proof fn law_two_places_of_others(x: Double)
    requires
        !x.finite(),
    ensures
        x.nan() ==> two_places(x) == "NaN"@,
        !x.nan() && !x.negative() ==> two_places(x) == "inf"@,
        !x.nan() && x.negative() ==> two_places(x) == "-inf"@,
{
    reveal_strlit("inf");
    reveal_strlit("-inf");
    if !x.nan() {
        if x.negative() {
            assert(two_places(x) =~= "-inf"@);
        } else {
            assert(two_places(x) =~= "inf"@);
        }
    }
}

/// A number that lies halfway between two hundredths is written as the even one.
pub proof fn law_two_places_tie(x: Double, k: nat)
    requires
        x.finite(),
        200 * units(x.magnitude()) == (2 * k + 1) * one_in_units(),
    ensures
        hundredths(x) == k || hundredths(x) == k + 1,
        hundredths(x) % 2 == 0,
{
    let u = one_in_units();
    let m = 100 * units(x.magnitude());
    lemma_pow2_pos(1073);
    lemma_pow2_unfold(1074);
    let half = pow2(1073);
    assert(m == k * u + half) by (nonlinear_arith)
        requires
            2 * m == (2 * k + 1) * u,
            u == 2 * half,
    ;
    lemma_fundamental_div_mod_converse(m as int, u as int, k as int, half as int);
}

} // verus!
