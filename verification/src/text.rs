//! Amounts and whole numbers as text, and pieces of text.

use vstd::prelude::*;
use vstd::utf8::is_char_boundary;
use vstd::string::StringSliceAdditionalSpecFns;
use crate::units::{held, smaller};

verus! {

// ---------------------------------------------------------------------------
// Digits
// ---------------------------------------------------------------------------

/// The character of a decimal digit.
pub open spec fn digit(d: int) -> char {
    (48 + d) as char
}

/// Whether `c` is a decimal digit.
pub open spec fn is_digit(c: char) -> bool {
    '0' <= c <= '9'
}

/// Whether every character of `s` is a decimal digit.
pub open spec fn all_digits(s: Seq<char>) -> bool {
    forall|i: int| 0 <= i < s.len() ==> is_digit(#[trigger] s[i])
}

/// Ten to the power `k`.
pub open spec fn power10(k: nat) -> nat
    decreases k,
{
    if k == 0 { 1 } else { 10 * power10((k - 1) as nat) }
}

/// The decimal numeral of `n`, without leading zeros.
pub open spec fn digits(n: nat) -> Seq<char>
    decreases n,
{
    if n < 10 {
        seq![digit(n as int)]
    } else {
        digits(n / 10).push(digit((n % 10) as int))
    }
}

/// The last `width` decimal digits of `n`, with leading zeros.
pub open spec fn padded(n: nat, width: nat) -> Seq<char>
    decreases width,
{
    if width == 0 {
        Seq::empty()
    } else {
        padded(n / 10, (width - 1) as nat).push(digit((n % 10) as int))
    }
}

/// The number that a sequence of decimal digits stands for.
pub open spec fn numeral(s: Seq<char>) -> nat
    decreases s.len(),
{
    if s.len() == 0 {
        0
    } else {
        (10 * numeral(s.drop_last()) + (s.last() as int - 48)) as nat
    }
}

/// A digit as text.
fn digit_text(d: u64) -> (r: &'static str)
    requires
        d < 10,
    ensures
        r@ == seq![digit(d as int)],
{
    proof {
        reveal_strlit("0");
        reveal_strlit("1");
        reveal_strlit("2");
        reveal_strlit("3");
        reveal_strlit("4");
        reveal_strlit("5");
        reveal_strlit("6");
        reveal_strlit("7");
        reveal_strlit("8");
        reveal_strlit("9");
    }
    if d == 0 {
        assert("0"@ =~= seq![digit(0)]);
        "0"
    } else if d == 1 {
        assert("1"@ =~= seq![digit(1)]);
        "1"
    } else if d == 2 {
        assert("2"@ =~= seq![digit(2)]);
        "2"
    } else if d == 3 {
        assert("3"@ =~= seq![digit(3)]);
        "3"
    } else if d == 4 {
        assert("4"@ =~= seq![digit(4)]);
        "4"
    } else if d == 5 {
        assert("5"@ =~= seq![digit(5)]);
        "5"
    } else if d == 6 {
        assert("6"@ =~= seq![digit(6)]);
        "6"
    } else if d == 7 {
        assert("7"@ =~= seq![digit(7)]);
        "7"
    } else if d == 8 {
        assert("8"@ =~= seq![digit(8)]);
        "8"
    } else {
        assert("9"@ =~= seq![digit(9)]);
        "9"
    }
}

/// The decimal numeral of `n`.
fn digits_text(n: u64) -> (r: String)
    ensures
        r@ == digits(n as nat),
    decreases n,
{
    if n < 10 {
        digit_text(n).to_owned()
    } else {
        let mut s: String = digits_text(n / 10);
        s.append(digit_text(n % 10));
        assert(s@ =~= digits(n as nat));
        s
    }
}

/// The last `width` decimal digits of `n`.
fn padded_text(n: u64, width: u32) -> (r: String)
    ensures
        r@ == padded(n as nat, width as nat),
    decreases width,
{
    if width == 0 {
        let s: String = String::new();
        assert(s@ =~= padded(n as nat, 0));
        s
    } else {
        let mut s: String = padded_text(n / 10, width - 1);
        s.append(digit_text(n % 10));
        assert(s@ =~= padded(n as nat, width as nat));
        s
    }
}

// ---------------------------------------------------------------------------
// Amounts with a fixed number of decimals
// ---------------------------------------------------------------------------

/// `m / step`, rounded to the nearest integer, halves to the even one.
pub open spec fn nearest(m: nat, step: nat) -> nat {
    let q = m / step;
    let r = m % step;
    if 2 * r > step || (2 * r == step && q % 2 == 1) { q + 1 } else { q }
}

/// An amount in millionths, written with `decimals` decimals.
pub open spec fn fixed_text(value: int, decimals: nat) -> Seq<char> {
    let size = if value < 0 { (-value) as nat } else { value as nat };
    let shown = nearest(size, power10((6 - decimals) as nat));
    let sign = if value < 0 { "-"@ } else { ""@ };
    let whole = sign + digits(shown / power10(decimals));
    if decimals == 0 { whole } else { whole + "."@ + padded(shown % power10(decimals), decimals) }
}

/// Ten to the power `k`.
fn ten_to(k: u32) -> (r: u64)
    requires
        k <= 6,
    ensures
        r == power10(k as nat),
        1 <= r <= 1_000_000,
{
    proof {
        reveal_with_fuel(power10, 7);
    }
    if k == 0 {
        1
    } else if k == 1 {
        10
    } else if k == 2 {
        100
    } else if k == 3 {
        1_000
    } else if k == 4 {
        10_000
    } else if k == 5 {
        100_000
    } else {
        1_000_000
    }
}

/// Writes an amount with a given number of decimals, at most six.
pub fn fixed(value: i64, decimals: u32) -> (r: String)
    requires
        decimals <= 6,
    ensures
        r@ == fixed_text(value as int, decimals as nat),
{
    let size: u64 = if value < 0 { (-(value + 1)) as u64 + 1 } else { value as u64 };
    let step: u64 = ten_to(6 - decimals);
    let base: u64 = ten_to(decimals);
    let q: u64 = size / step;
    let rest: u64 = size % step;
    let shown: u64 = if 2 * rest > step || (2 * rest == step && q % 2 == 1) { q + 1 } else { q };
    let mut out: String = if value < 0 { "-".to_owned() } else { "".to_owned() };
    out.append(digits_text(shown / base).as_str());
    if decimals > 0 {
        out.append(".");
        out.append(padded_text(shown % base, decimals).as_str());
    }
    out
}

// ---------------------------------------------------------------------------
// Amounts with as few decimals as they need
// ---------------------------------------------------------------------------

/// How many decimals an amount of a size in millionths needs, at least one.
pub open spec fn decimals_needed(size: nat) -> nat {
    if size % 100_000 == 0 {
        1
    } else if size % 10_000 == 0 {
        2
    } else if size % 1_000 == 0 {
        3
    } else if size % 100 == 0 {
        4
    } else if size % 10 == 0 {
        5
    } else {
        6
    }
}

/// An amount in millionths, written with as few decimals as it needs; below ten
/// millionths with an exponent.
pub open spec fn number_text(value: int) -> Seq<char> {
    if 0 < value < 10 {
        digits(value as nat) + "e-6"@
    } else if -10 < value < 0 {
        "-"@ + digits((-value) as nat) + "e-6"@
    } else {
        fixed_text(value, decimals_needed(if value < 0 { (-value) as nat } else { value as nat }))
    }
}

/// How many decimals an amount needs.
fn decimals_of(size: u64) -> (r: u32)
    ensures
        r == decimals_needed(size as nat),
        1 <= r <= 6,
{
    if size % 100_000 == 0 {
        1
    } else if size % 10_000 == 0 {
        2
    } else if size % 1_000 == 0 {
        3
    } else if size % 100 == 0 {
        4
    } else if size % 10 == 0 {
        5
    } else {
        6
    }
}

/// Writes an amount with as few decimals as it needs.
pub fn number(value: i64) -> (r: String)
    ensures
        r@ == number_text(value as int),
{
    if 0 < value && value < 10 {
        let mut out: String = digits_text(value as u64);
        out.append("e-6");
        return out;
    }
    if -10 < value && value < 0 {
        let mut out: String = "-".to_owned();
        out.append(digits_text((-value) as u64).as_str());
        out.append("e-6");
        return out;
    }
    let size: u64 = if value < 0 { (-(value + 1)) as u64 + 1 } else { value as u64 };
    fixed(value, decimals_of(size))
}

// ---------------------------------------------------------------------------
// Reading numbers
// ---------------------------------------------------------------------------

/// The position of the first `a` or `b` in `s`, or its length.
pub open spec fn first_of(s: Seq<char>, a: char, b: char) -> int
    decreases s.len(),
{
    if s.len() == 0 {
        0
    } else if s[0] == a || s[0] == b {
        0
    } else {
        1 + first_of(s.skip(1), a, b)
    }
}

/// Whether `s` starts with a sign.
pub open spec fn signed(s: Seq<char>) -> bool {
    s.len() > 0 && (s[0] == '+' || s[0] == '-')
}

/// Whether `s` starts with a minus sign.
pub open spec fn negative(s: Seq<char>) -> bool {
    s.len() > 0 && s[0] == '-'
}

/// `s` without its sign.
pub open spec fn unsigned(s: Seq<char>) -> Seq<char> {
    if signed(s) { s.skip(1) } else { s }
}

/// The part of a decimal numeral before the exponent mark, without its sign.
pub open spec fn mantissa(s: Seq<char>) -> Seq<char> {
    unsigned(s).take(first_of(unsigned(s), 'e', 'E'))
}

/// Whether a decimal numeral has an exponent mark.
pub open spec fn has_exponent(s: Seq<char>) -> bool {
    first_of(unsigned(s), 'e', 'E') < unsigned(s).len()
}

/// What follows the exponent mark.
pub open spec fn exponent_text(s: Seq<char>) -> Seq<char> {
    unsigned(s).skip(first_of(unsigned(s), 'e', 'E') + 1)
}

/// The exponent of a decimal numeral.
pub open spec fn exponent(s: Seq<char>) -> int {
    if !has_exponent(s) {
        0
    } else if negative(exponent_text(s)) {
        -(numeral(unsigned(exponent_text(s))) as int)
    } else {
        numeral(unsigned(exponent_text(s))) as int
    }
}

/// The digits before the point.
pub open spec fn whole_part(s: Seq<char>) -> Seq<char> {
    mantissa(s).take(first_of(mantissa(s), '.', '.'))
}

/// The digits after the point.
pub open spec fn fraction_part(s: Seq<char>) -> Seq<char> {
    let p = first_of(mantissa(s), '.', '.');
    if p < mantissa(s).len() { mantissa(s).skip(p + 1) } else { Seq::empty() }
}

/// Whether `s` is a decimal numeral: an optional sign, digits with an optional
/// point among or beside them, and an optional exponent.
pub open spec fn is_decimal(s: Seq<char>) -> bool {
    &&& all_digits(whole_part(s))
    &&& all_digits(fraction_part(s))
    &&& whole_part(s).len() + fraction_part(s).len() > 0
    &&& has_exponent(s) ==> {
        &&& unsigned(exponent_text(s)).len() > 0
        &&& all_digits(unsigned(exponent_text(s)))
    }
}

/// The number made of the first `shift` digits of `s`, with zeros where `s`
/// has no more digits.
pub open spec fn leading(s: Seq<char>, shift: int) -> nat {
    if shift <= 0 {
        0
    } else if shift <= s.len() {
        numeral(s.take(shift))
    } else {
        numeral(s) * power10((shift - s.len()) as nat)
    }
}

/// The size of a decimal numeral in millionths; digits beyond the sixth
/// decimal are cut off.
pub open spec fn decimal_size(s: Seq<char>) -> nat {
    leading(whole_part(s) + fraction_part(s), whole_part(s).len() + exponent(s) + 6)
}

/// A letter without its case.
pub open spec fn lower(c: char) -> char {
    if 'A' <= c <= 'Z' { (c as int + 32) as char } else { c }
}

/// Whether `s` is the word `word`, in any case.
pub open spec fn is_word(s: Seq<char>, word: Seq<char>) -> bool {
    s.len() == word.len() && forall|i: int| 0 <= i < s.len() ==> lower(#[trigger] s[i]) == word[i]
}

/// Whether `s` stands for an infinite number.
pub open spec fn is_infinite(s: Seq<char>) -> bool {
    is_word(unsigned(s), "inf"@) || is_word(unsigned(s), "infinity"@)
}

/// The amount that a text stands for, in millionths, held at the ends of the
/// range of `i64`. Text that is neither a decimal numeral nor an infinite number
/// has none.
pub open spec fn decimal_value(s: Seq<char>) -> Option<i64> {
    let value = if negative(s) { -(decimal_size(s) as int) } else { decimal_size(s) as int };
    if is_decimal(s) {
        Some(held(value) as i64)
    } else if is_infinite(s) {
        Some(if negative(s) { i64::MIN } else { i64::MAX })
    } else {
        None
    }
}

/// The characters of `text`.
pub fn to_chars(text: &str) -> (r: Vec<char>)
    ensures
        r@ == text@,
{
    let mut out: Vec<char> = Vec::new();
    for c in it: text.chars()
        invariant
            out@ == it.seq().take(it.index()),
            it.seq() == text@,
    {
        out.push(c);
    }
    assert(out@ =~= text@);
    out
}

/// A numeral does not shrink when digits are added to it.
proof fn lemma_numeral_grows(s: Seq<char>, i: int, j: int)
    requires
        0 <= i <= j <= s.len(),
        all_digits(s),
    ensures
        numeral(s.take(i)) <= numeral(s.take(j)),
    decreases j - i,
{
    if i < j {
        lemma_numeral_grows(s, i, j - 1);
        assert(s.take(j).drop_last() =~= s.take(j - 1));
        assert(is_digit(s[j - 1]));
    }
}

/// One more digit.
proof fn lemma_numeral_step(s: Seq<char>, i: int)
    requires
        0 <= i < s.len(),
        all_digits(s),
    ensures
        numeral(s.take(i + 1)) == 10 * numeral(s.take(i)) + (s[i] as int - 48),
        0 <= s[i] as int - 48 <= 9,
{
    assert(s.take(i + 1).drop_last() =~= s.take(i));
    assert(is_digit(s[i]));
}

/// Powers of ten are positive and grow.
proof fn lemma_power10_grows(i: nat, j: nat)
    requires
        i <= j,
    ensures
        1 <= power10(i) <= power10(j),
    decreases j,
{
    if i < j {
        lemma_power10_grows(i, (j - 1) as nat);
    } else if i > 0 {
        lemma_power10_grows((i - 1) as nat, (j - 1) as nat);
    }
}

/// Beyond twenty more places than there are digits, the number of places no
/// longer decides whether the number is within the range of `i64`.
proof fn lemma_leading_far(s: Seq<char>, shift: int)
    requires
        shift > s.len() + 20,
    ensures
        numeral(s) == 0 ==> leading(s, shift) == 0,
        numeral(s) > 0 ==> leading(s, shift) > 0x8000_0000_0000_0000,
{
    let k: nat = (shift - s.len()) as nat;
    lemma_power10_grows(20, k);
    assert(power10(20) > 0x8000_0000_0000_0000) by {
        reveal_with_fuel(power10, 21);
    }
    assert(numeral(s) == 0 ==> numeral(s) * power10(k) == 0) by (nonlinear_arith);
    assert(numeral(s) > 0 ==> numeral(s) * power10(k) >= power10(k)) by (nonlinear_arith);
}

/// The position of the first `a` or `b` between `from` and `to`, or `to`.
fn find(chars: &Vec<char>, from: usize, to: usize, a: char, b: char) -> (r: usize)
    requires
        from <= to <= chars.len(),
    ensures
        from <= r <= to,
        r - from == first_of(chars@.subrange(from as int, to as int), a, b),
{
    let ghost s = chars@;
    let mut i: usize = from;
    while i < to
        invariant
            from <= i <= to <= chars.len(),
            s == chars@,
            first_of(s.subrange(from as int, to as int), a, b) == (i - from) + first_of(
                s.subrange(i as int, to as int),
                a,
                b,
            ),
        decreases to - i,
    {
        if chars[i] == a || chars[i] == b {
            assert(s.subrange(i as int, to as int)[0] == s[i as int]);
            return i;
        }
        assert(s.subrange(i as int, to as int)[0] == s[i as int]);
        assert(s.subrange(i as int, to as int).skip(1) =~= s.subrange(i + 1, to as int));
        i = i + 1;
    }
    i
}

/// Whether all characters between `from` and `to` are digits.
fn digits_only(chars: &Vec<char>, from: usize, to: usize) -> (r: bool)
    requires
        from <= to <= chars.len(),
    ensures
        r == all_digits(chars@.subrange(from as int, to as int)),
{
    let ghost s = chars@.subrange(from as int, to as int);
    let mut i: usize = from;
    while i < to
        invariant
            from <= i <= to <= chars.len(),
            s == chars@.subrange(from as int, to as int),
            forall|j: int| 0 <= j < i - from ==> is_digit(#[trigger] s[j]),
        decreases to - i,
    {
        let c: char = chars[i];
        assert(s[i - from] == c);
        if !('0' <= c && c <= '9') {
            return false;
        }
        i = i + 1;
    }
    true
}

/// The value of a digit.
fn digit_of(c: char) -> (r: u64)
    requires
        is_digit(c),
    ensures
        r == c as int - 48,
{
    (c as u32 - 48) as u64
}

/// Larger than every exponent that can still matter.
pub const FAR: i128 = 1_000_000_000_000_000_000_000_000_000_000;

/// The number that the digits between `from` and `to` stand for, exact while
/// it is below `FAR`.
fn capped_number(chars: &Vec<char>, from: usize, to: usize) -> (r: i128)
    requires
        from <= to <= chars.len(),
        all_digits(chars@.subrange(from as int, to as int)),
    ensures
        0 <= r <= 10 * FAR + 9,
        numeral(chars@.subrange(from as int, to as int)) < FAR ==> r == numeral(
            chars@.subrange(from as int, to as int),
        ),
        numeral(chars@.subrange(from as int, to as int)) >= FAR ==> r >= FAR,
{
    let ghost s = chars@.subrange(from as int, to as int);
    let mut acc: i128 = 0;
    let mut i: usize = from;
    while i < to
        invariant
            from <= i <= to <= chars.len(),
            s == chars@.subrange(from as int, to as int),
            all_digits(s),
            0 <= acc <= 10 * FAR + 9,
            numeral(s.take(i - from)) < FAR ==> acc == numeral(s.take(i - from)),
            numeral(s.take(i - from)) >= FAR ==> acc >= FAR,
        decreases to - i,
    {
        proof {
            lemma_numeral_step(s, i - from);
            lemma_numeral_grows(s, i - from, i - from + 1);
        }
        if acc < FAR {
            let d: u64 = digit_of(chars[i]);
            acc = 10 * acc + d as i128;
        }
        i = i + 1;
    }
    assert(s.take(i - from) =~= s);
    acc
}

/// The number made of the first `shift` of the given digits, with zeros where
/// there are no more; nothing where it exceeds the size of every `i64`.
fn leading_number(chars: &Vec<char>, shift: i128) -> (r: Option<u64>)
    requires
        all_digits(chars@),
    ensures
        match r {
            Some(v) => v == leading(chars@, shift as int) && v <= 0x8000_0000_0000_0000,
            None => leading(chars@, shift as int) > 0x8000_0000_0000_0000,
        },
{
    let ghost s = chars@;
    if shift <= 0 {
        return Some(0);
    }
    let count: usize = if shift < chars.len() as i128 { shift as usize } else { chars.len() };
    let mut acc: u64 = 0;
    let mut i: usize = 0;
    while i < count
        invariant
            i <= count <= chars.len(),
            s == chars@,
            all_digits(s),
            acc == numeral(s.take(i as int)),
            acc <= 0x8000_0000_0000_0000,
            count == if shift < s.len() { shift as int } else { s.len() as int },
            shift > 0,
        decreases count - i,
    {
        proof {
            lemma_numeral_step(s, i as int);
            lemma_numeral_grows(s, i + 1, count as int);
            if shift > s.len() {
                lemma_power10_grows(0, (shift - s.len()) as nat);
                let n: int = numeral(s) as int;
                let p: int = power10((shift - s.len()) as nat) as int;
                assert(n * p >= n) by (nonlinear_arith)
                    requires
                        n >= 0,
                        p >= 1,
                ;
            }
            assert(s.take(s.len() as int) =~= s);
        }
        assert(is_digit(s[i as int]));
        let next: u128 = 10 * (acc as u128) + digit_of(chars[i]) as u128;
        if next > 0x8000_0000_0000_0000 {
            return None;
        }
        acc = next as u64;
        i = i + 1;
    }
    if shift <= chars.len() as i128 {
        return Some(acc);
    }
    assert(s.take(count as int) =~= s);
    let zeros: i128 = shift - chars.len() as i128;
    if acc == 0 {
        assert(0 * power10(zeros as nat) == 0);
        return Some(0);
    }
    let mut j: i128 = 0;
    let ghost n = numeral(s);
    assert(n * power10(0) == n) by (nonlinear_arith)
        requires
            power10(0) == 1,
    ;
    while j < zeros
        invariant
            0 <= j <= zeros,
            acc == n * power10(j as nat),
            n > 0,
            acc <= 0x8000_0000_0000_0000,
            n == numeral(s),
            s == chars@,
            zeros == shift - s.len(),
            zeros > 0,
        decreases zeros - j,
    {
        let next: u128 = 10 * (acc as u128);
        proof {
            let a: int = n as int;
            let p: int = power10(j as nat) as int;
            let p1: int = power10((j + 1) as nat) as int;
            let pz: int = power10(zeros as nat) as int;
            lemma_power10_grows((j + 1) as nat, zeros as nat);
            assert(a * p1 == 10 * (a * p)) by (nonlinear_arith)
                requires
                    p1 == 10 * p,
            ;
            assert(a * p1 <= a * pz) by (nonlinear_arith)
                requires
                    p1 <= pz,
                    a > 0,
            ;
        }
        if next > 0x8000_0000_0000_0000 {
            return None;
        }
        acc = next as u64;
        j = j + 1;
    }
    Some(acc)
}

/// Whether two numbers are equal, or both beyond the size of every `i64`.
spec fn alike(a: int, b: int) -> bool {
    a == b || (a > 0x8000_0000_0000_0000 && b > 0x8000_0000_0000_0000)
}

/// The exponent written from `first` on, exact while its size is below `FAR`.
fn read_exponent(chars: &Vec<char>, first: usize) -> (r: Option<i128>)
    requires
        first <= chars.len(),
    ensures
        ({
            let e = chars@.skip(first as int);
            let size = numeral(unsigned(e)) as int;
            match r {
                None => !(unsigned(e).len() > 0 && all_digits(unsigned(e))),
                Some(p) => {
                    &&& unsigned(e).len() > 0 && all_digits(unsigned(e))
                    &&& size < FAR ==> p == if negative(e) { -size } else { size }
                    &&& size >= FAR ==> if negative(e) { p <= -FAR } else { p >= FAR }
                    &&& -(10 * FAR + 9) <= p <= 10 * FAR + 9
                },
            }
        }),
{
    let ghost e = chars@.skip(first as int);
    let len: usize = chars.len();
    let down: bool = first < len && chars[first] == '-';
    let from: usize = if first < len && (chars[first] == '+' || chars[first] == '-') {
        first + 1
    } else {
        first
    };
    assert(first < len ==> e[0] == chars@[first as int]);
    assert(unsigned(e) =~= chars@.subrange(from as int, len as int));
    if from == len || !digits_only(chars, from, len) {
        return None;
    }
    let number: i128 = capped_number(chars, from, len);
    if down {
        Some(-number)
    } else {
        Some(number)
    }
}

/// The characters of two ranges, one after the other.
fn joined(chars: &Vec<char>, a: usize, b: usize, c: usize, d: usize) -> (r: Vec<char>)
    requires
        a <= b <= chars.len(),
        c <= d <= chars.len(),
    ensures
        r@ == chars@.subrange(a as int, b as int) + chars@.subrange(c as int, d as int),
{
    let ghost s = chars@;
    let mut found: Vec<char> = Vec::new();
    let mut i: usize = a;
    while i < b
        invariant
            a <= i <= b <= chars.len(),
            chars@ == s,
            found@ == s.subrange(a as int, i as int),
        decreases b - i,
    {
        found.push(chars[i]);
        i = i + 1;
        assert(found@ =~= s.subrange(a as int, i as int));
    }
    let ghost front = s.subrange(a as int, b as int);
    let mut j: usize = c;
    while j < d
        invariant
            c <= j <= d <= chars.len(),
            chars@ == s,
            found@ == front + s.subrange(c as int, j as int),
        decreases d - j,
    {
        found.push(chars[j]);
        j = j + 1;
        assert(found@ =~= front + s.subrange(c as int, j as int));
    }
    found
}

/// The parts of a decimal numeral, by position.
proof fn lemma_parts(s: Seq<char>, start: int, mark: int, point: int, after: int)
    requires
        start == if signed(s) { 1int } else { 0int },
        start <= point <= mark <= s.len(),
        mark - start == first_of(s.subrange(start, s.len() as int), 'e', 'E'),
        point - start == first_of(s.subrange(start, mark), '.', '.'),
        after == if point < mark { point + 1 } else { mark },
    ensures
        whole_part(s) == s.subrange(start, point),
        fraction_part(s) == s.subrange(after, mark),
        has_exponent(s) == (mark < s.len()),
        mark < s.len() ==> exponent_text(s) == s.skip(mark + 1),
{
    assert(unsigned(s) =~= s.subrange(start, s.len() as int));
    assert(mantissa(s) =~= s.subrange(start, mark));
    assert(whole_part(s) =~= s.subrange(start, point));
    assert(fraction_part(s) =~= s.subrange(after, mark));
    if mark < s.len() {
        assert(exponent_text(s) =~= s.skip(mark + 1));
    }
}

/// The digits of both parts are digits.
proof fn lemma_joined_digits(a: Seq<char>, b: Seq<char>)
    requires
        all_digits(a),
        all_digits(b),
    ensures
        all_digits(a + b),
{
    assert forall|i: int| 0 <= i < (a + b).len() implies is_digit(#[trigger] (a + b)[i]) by {
        if i < a.len() {
            assert((a + b)[i] == a[i]);
        } else {
            assert((a + b)[i] == b[i - a.len()]);
        }
    }
}

/// A capped exponent gives a number that is alike.
proof fn lemma_capped(d: Seq<char>, whole: int, exact: int, power: int)
    requires
        0 <= whole <= d.len() <= usize::MAX,
        magnitude_below_far(exact) ==> power == exact,
        exact >= FAR ==> power >= FAR,
        exact <= -FAR ==> power <= -FAR,
    ensures
        alike(leading(d, whole + exact + 6) as int, leading(d, whole + power + 6) as int),
{
    if exact >= FAR {
        lemma_leading_far(d, whole + exact + 6);
        lemma_leading_far(d, whole + power + 6);
    }
}

/// Whether an exponent is small enough to be read exactly.
spec fn magnitude_below_far(e: int) -> bool {
    -FAR < e < FAR
}

/// The size of a decimal numeral, held at the size of every `i64`.
fn read_size(chars: &Vec<char>, start: usize) -> (r: Option<u64>)
    requires
        start == if signed(chars@) { 1int } else { 0int },
        start <= chars.len(),
    ensures
        match r {
            Some(v) => is_decimal(chars@) && v == smaller(
                decimal_size(chars@) as int,
                0x8000_0000_0000_0000,
            ),
            None => !is_decimal(chars@),
        },
{
    let ghost s = chars@;
    let len: usize = chars.len();
    let mark: usize = find(chars, start, len, 'e', 'E');
    let point: usize = find(chars, start, mark, '.', '.');
    let after: usize = if point < mark { point + 1 } else { mark };
    proof {
        lemma_parts(s, start as int, mark as int, point as int, after as int);
    }
    if !digits_only(chars, start, point) {
        return None;
    }
    if !digits_only(chars, after, mark) {
        return None;
    }
    if point == start && mark == after {
        return None;
    }
    let mut power: i128 = 0;
    if mark < len {
        match read_exponent(chars, mark + 1) {
            None => {
                return None;
            },
            Some(p) => {
                power = p;
            },
        }
    }
    let found: Vec<char> = joined(chars, start, point, after, mark);
    proof {
        lemma_joined_digits(whole_part(s), fraction_part(s));
        lemma_capped(found@, whole_part(s).len() as int, exponent(s), power as int);
    }
    let shift: i128 = (point - start) as i128 + power + 6;
    match leading_number(&found, shift) {
        Some(v) => Some(v),
        None => Some(0x8000_0000_0000_0000),
    }
}

/// Whether the characters from `start` on are a word, in any case.
fn reads_word(chars: &Vec<char>, start: usize, word: &str) -> (r: bool)
    requires
        start <= chars.len(),
    ensures
        r == is_word(chars@.skip(start as int), word@),
{
    let letters: Vec<char> = to_chars(word);
    let ghost rest = chars@.skip(start as int);
    if chars.len() - start != letters.len() {
        return false;
    }
    let mut i: usize = 0;
    while i < letters.len()
        invariant
            i <= letters.len(),
            start + letters.len() == chars.len(),
            rest == chars@.skip(start as int),
            letters@ == word@,
            forall|k: int| 0 <= k < i ==> lower(#[trigger] rest[k]) == word@[k],
        decreases letters.len() - i,
    {
        let c: char = chars[start + i];
        assert(rest[i as int] == c);
        let small: char = if 'A' <= c && c <= 'Z' { ((c as u8) + 32) as char } else { c };
        if small != letters[i] {
            return false;
        }
        i = i + 1;
    }
    true
}

/// Reads a text as an amount in millionths.
pub fn parse_decimal(text: &str) -> (r: Option<i64>)
    ensures
        r == decimal_value(text@),
{
    let chars: Vec<char> = to_chars(text);
    let len: usize = chars.len();
    let minus: bool = len > 0 && chars[0] == '-';
    let start: usize = if len > 0 && (chars[0] == '+' || chars[0] == '-') { 1 } else { 0 };
    assert(unsigned(chars@) =~= chars@.skip(start as int));
    match read_size(&chars, start) {
        None => {
            if reads_word(&chars, start, "inf") || reads_word(&chars, start, "infinity") {
                Some(if minus { i64::MIN } else { i64::MAX })
            } else {
                None
            }
        },
        Some(v) => {
            if minus {
                if v == 0x8000_0000_0000_0000 {
                    Some(i64::MIN)
                } else {
                    Some(-(v as i64))
                }
            } else if v <= 0x7FFF_FFFF_FFFF_FFFF {
                Some(v as i64)
            } else {
                Some(i64::MAX)
            }
        },
    }
}

/// The port number that `s` stands for: an optional plus sign and digits, with
/// a value below 65536.
pub open spec fn port_value(s: Seq<char>) -> Option<u16> {
    let body = if s.len() > 0 && s[0] == '+' { s.skip(1) } else { s };
    if body.len() > 0 && all_digits(body) && numeral(body) <= u16::MAX {
        Some(numeral(body) as u16)
    } else {
        None
    }
}

/// Reads a port number.
pub fn parse_port(text: &str) -> (r: Option<u16>)
    ensures
        r == port_value(text@),
{
    let chars: Vec<char> = to_chars(text);
    let ghost s = text@;
    let len: usize = chars.len();
    let from: usize = if len > 0 && chars[0] == '+' { 1 } else { 0 };
    let ghost body = if s.len() > 0 && s[0] == '+' { s.skip(1) } else { s };
    assert(body =~= s.subrange(from as int, len as int));
    if from == len || !digits_only(&chars, from, len) {
        return None;
    }
    let number: i128 = capped_number(&chars, from, len);
    if number <= u16::MAX as i128 {
        Some(number as u16)
    } else {
        None
    }
}

// ---------------------------------------------------------------------------
// Pieces of text
// ---------------------------------------------------------------------------

/// The number of bytes of `s` that a head of at most `n` bytes has.
pub open spec fn head_len(s: Seq<char>, n: nat) -> int {
    let len = vstd::utf8::encode_utf8(s).len();
    if n < len { n as int } else { len as int }
}

/// Whether `s` can be cut after `n` bytes, or is no longer than that.
pub open spec fn cuttable(s: Seq<char>, n: nat) -> bool {
    is_char_boundary(vstd::utf8::encode_utf8(s), head_len(s, n))
}

/// The characters in the first `n` bytes of `s`, or all of them where it is no
/// longer.
pub open spec fn head_text(s: Seq<char>, n: nat) -> Seq<char> {
    vstd::utf8::decode_utf8(vstd::utf8::encode_utf8(s).take(head_len(s, n)))
}

/// Whether `text` can be cut after `n` bytes, or is no longer than that.
pub fn can_cut(text: &str, n: usize) -> (r: bool)
    ensures
        r == cuttable(text@, n as nat),
{
    let len: usize = text.as_bytes().len();
    let at: usize = if n < len { n } else { len };
    text.is_char_boundary(at)
}

/// The first `n` bytes of `text`, or all of it where it is no longer.
pub fn head(text: &str, n: usize) -> (r: &str)
    requires
        cuttable(text@, n as nat),
    ensures
        r@ == head_text(text@, n as nat),
{
    let len: usize = text.as_bytes().len();
    let at: usize = if n < len { n } else { len };
    let start: &str = text.split_at(at).0;
    proof {
        vstd::utf8::encode_utf8_decode_utf8(start@);
    }
    start
}

/// Whether `s` ends with `tail`.
pub open spec fn ends_with(s: Seq<char>, tail: Seq<char>) -> bool {
    s.len() >= tail.len() && s.skip(s.len() - tail.len()) == tail
}

/// Whether `text` ends with `tail`.
pub fn has_suffix(text: &str, tail: &str) -> (r: bool)
    ensures
        r == ends_with(text@, tail@),
{
    let a: Vec<char> = to_chars(text);
    let b: Vec<char> = to_chars(tail);
    if a.len() < b.len() {
        return false;
    }
    let from: usize = a.len() - b.len();
    let ghost end = a@.skip(from as int);
    let mut i: usize = 0;
    while i < b.len()
        invariant
            i <= b.len(),
            from + b.len() == a.len(),
            a@ == text@,
            b@ == tail@,
            end == a@.skip(from as int),
            forall|j: int| 0 <= j < i ==> end[j] == b@[j],
        decreases b.len() - i,
    {
        assert(end[i as int] == a@[from + i]);
        if a[from + i] != b[i] {
            assert(end[i as int] != tail@[i as int]);
            assert(text@.skip(text@.len() - tail@.len()) == end);
            return false;
        }
        i = i + 1;
    }
    assert(end =~= b@);
    true
}

} // verus!
