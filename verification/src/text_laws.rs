//! What holds of amounts as text: what is written is read back.

use vstd::prelude::*;
use vstd::arithmetic::div_mod::lemma_fundamental_div_mod;
use vstd::utf8::{encode_utf8, encode_utf8_decode_utf8, is_ascii_chars, is_ascii_chars_encode_utf8};
use crate::executor::{bearer, order_address};
use crate::feed::markets_address;
use crate::text::{
    all_digits, decimal_size, decimal_value, decimals_needed, digit, digits, ends_with, exponent,
    exponent_text, first_of, fixed_text, fraction_part, has_exponent, head_text, is_decimal,
    is_digit, leading, mantissa, nearest, negative, number_text, numeral, padded, port_value,
    power10, unsigned, whole_part,
};
use crate::types::{amount_setting, dry_run_setting};
use crate::units::held;

verus! {

// ---------------------------------------------------------------------------
// Digits
// ---------------------------------------------------------------------------

/// A decimal numeral stands for its number, and has no leading zero.
pub proof fn law_digits(n: nat)
    ensures
        all_digits(digits(n)),
        digits(n).len() > 0,
        numeral(digits(n)) == n,
        digits(n).len() > 1 ==> digits(n)[0] != '0',
    decreases n,
{
    if n < 10 {
        assert(digits(n).drop_last() =~= Seq::empty());
        reveal_with_fuel(numeral, 2);
    } else {
        let front = digits(n / 10);
        law_digits(n / 10);
        assert(digits(n).drop_last() =~= front);
        assert(digits(n)[0] == front[0]);
        if front.len() == 1 {
            assert(n / 10 < 10) by {
                if n / 10 >= 10 {
                    law_digits((n / 10) / 10);
                    assert(front.len() == digits((n / 10) / 10).len() + 1);
                }
            }
            assert(front[0] == digit((n / 10) as int));
            assert(n / 10 >= 1);
        }
        assert forall|i: int| 0 <= i < digits(n).len() implies is_digit(#[trigger] digits(n)[i]) by {
            if i < front.len() {
                assert(is_digit(front[i]));
            }
        }
    }
}

/// Padded digits are as many as asked for, and stand for the number where it has no more.
pub proof fn law_padded(n: nat, width: nat)
    ensures
        all_digits(padded(n, width)),
        padded(n, width).len() == width,
        n < power10(width) ==> numeral(padded(n, width)) == n,
    decreases width,
{
    if width > 0 {
        let front = padded(n / 10, (width - 1) as nat);
        law_padded(n / 10, (width - 1) as nat);
        assert(padded(n, width).drop_last() =~= front);
        assert forall|i: int| 0 <= i < padded(n, width).len() implies is_digit(
            #[trigger] padded(n, width)[i],
        ) by {
            if i < front.len() {
                assert(is_digit(front[i]));
            }
        }
        if n < power10(width) {
            assert(n / 10 < power10((width - 1) as nat));
        }
    }
}

/// The numeral of two runs of digits is that of the first, moved, and that of the second.
pub proof fn law_numeral_of_both(a: Seq<char>, b: Seq<char>)
    requires
        all_digits(b),
    ensures
        numeral(a + b) == numeral(a) * power10(b.len()) + numeral(b),
    decreases b.len(),
{
    if b.len() == 0 {
        assert(a + b =~= a);
        assert(power10(0) == 1);
        assert(numeral(a) * power10(b.len()) == numeral(a)) by (nonlinear_arith)
            requires
                power10(b.len()) == 1,
        ;
    } else {
        let front = b.drop_last();
        assert forall|i: int| 0 <= i < front.len() implies is_digit(#[trigger] front[i]) by {
            assert(front[i] == b[i]);
        }
        law_numeral_of_both(a, front);
        assert((a + b).drop_last() =~= a + front);
        assert(is_digit(b[b.len() - 1]));
        assert((a + b).last() == b.last());
        let p: int = power10(front.len()) as int;
        let x: int = numeral(a) as int;
        assert(10 * (x * p) == x * (10 * p)) by (nonlinear_arith);
        assert(power10(b.len()) == 10 * p);
        assert(numeral(b) == 10 * numeral(front) + (b.last() as int - 48));
        assert(numeral(a + b) == 10 * numeral(a + front) + (b.last() as int - 48));
    }
}

// ---------------------------------------------------------------------------
// Rounding
// ---------------------------------------------------------------------------

/// What is nearest is at most half a step away, and of two that are as near it is the
/// even one.
pub proof fn law_nearest(m: nat, step: nat)
    requires
        step > 0,
    ensures
        ({
            let off = nearest(m, step) * step - m;
            &&& -(step as int) <= 2 * off <= step
            &&& 2 * off == step || 2 * off == -(step as int) ==> nearest(m, step) % 2 == 0
        }),
        m % step == 0 ==> nearest(m, step) * step == m,
{
    let q: int = (m / step) as int;
    let s: int = step as int;
    lemma_fundamental_div_mod(m as int, s);
    assert((q + 1) * s == s * q + s) by (nonlinear_arith);
    assert(q * s == s * q) by (nonlinear_arith);
}

// ---------------------------------------------------------------------------
// Reading what was written
// ---------------------------------------------------------------------------

/// The first of two characters is looked for behind what holds neither of them.
proof fn lemma_first_behind(a: Seq<char>, b: Seq<char>, x: char, y: char)
    requires
        forall|i: int| 0 <= i < a.len() ==> #[trigger] a[i] != x && a[i] != y,
    ensures
        first_of(a + b, x, y) == a.len() + first_of(b, x, y),
    decreases a.len(),
{
    if a.len() == 0 {
        assert(a + b =~= b);
    } else {
        assert(a[0] != x && a[0] != y);
        assert((a + b)[0] == a[0]);
        assert((a + b).skip(1) =~= a.skip(1) + b);
        assert forall|i: int| 0 <= i < a.skip(1).len() implies #[trigger] a.skip(1)[i] != x
            && a.skip(1)[i] != y by {
            assert(a[i + 1] != x && a[i + 1] != y);
        }
        lemma_first_behind(a.skip(1), b, x, y);
    }
}

/// What digits with a point among them stand for.
proof fn lemma_reads_point(s: Seq<char>, sign: Seq<char>, a: Seq<char>, b: Seq<char>)
    requires
        s == sign + a + "."@ + b,
        sign == "-"@ || sign == ""@,
        all_digits(a),
        all_digits(b),
        0 < a.len(),
        0 < b.len() <= 6,
    ensures
        is_decimal(s),
        negative(s) == (sign == "-"@),
        decimal_size(s) == (numeral(a) * power10(b.len()) + numeral(b)) * power10(
            (6 - b.len()) as nat,
        ),
{
    lemma_point_parts(s, sign, a, b);
    law_numeral_of_both(a, b);
    let all = a + b;
    assert(leading(all, a.len() as int + 6) == numeral(all) * power10((6 - b.len()) as nat)) by {
        if b.len() == 6 {
            assert(all.take(a.len() as int + 6) =~= all);
            assert(power10(0) == 1);
            assert(numeral(all) * 1 == numeral(all));
        } else {
            assert(a.len() as int + 6 - all.len() == 6 - b.len());
        }
    }
}

/// An amount that is written with decimals reads as the nearest amount with so many.
pub proof fn law_fixed_reads_back(value: int, decimals: nat)
    requires
        i64::MIN <= value <= i64::MAX,
        1 <= decimals <= 6,
    ensures
        ({
            let size = if value < 0 { (-value) as nat } else { value as nat };
            let step = power10((6 - decimals) as nat);
            let shown = (nearest(size, step) * step) as int;
            decimal_value(fixed_text(value, decimals)) == Some(
                held(if value < 0 { -shown } else { shown }) as i64,
            )
        }),
{
    let size: nat = if value < 0 { (-value) as nat } else { value as nat };
    let step: nat = power10((6 - decimals) as nat);
    let base: nat = power10(decimals);
    let shown: nat = nearest(size, step);
    lemma_power_positive(decimals);
    let sign = if value < 0 { "-"@ } else { ""@ };
    let a = digits(shown / base);
    let b = padded(shown % base, decimals);
    law_digits(shown / base);
    law_padded(shown % base, decimals);
    lemma_fundamental_div_mod(shown as int, base as int);
    lemma_reads_point(fixed_text(value, decimals), sign, a, b);
    reveal_strlit("-");
    reveal_strlit("");
    assert("-"@.len() != ""@.len());
    assert(numeral(a) * base + numeral(b) == shown) by (nonlinear_arith)
        requires
            numeral(a) == shown / base,
            numeral(b) == shown % base,
            shown == base * (shown / base) + shown % base,
    ;
}

proof fn lemma_power_positive(k: nat)
    ensures
        power10(k) > 0,
    decreases k,
{
    if k > 0 {
        lemma_power_positive((k - 1) as nat);
    }
}

/// What digits with an exponent of minus six stand for.
proof fn lemma_reads_exponent(s: Seq<char>, sign: Seq<char>, a: Seq<char>)
    requires
        s == sign + a + "e-6"@,
        sign == "-"@ || sign == ""@,
        all_digits(a),
        0 < a.len(),
    ensures
        is_decimal(s),
        negative(s) == (sign == "-"@),
        decimal_size(s) == numeral(a),
{
    reveal_strlit("-");
    reveal_strlit("");
    reveal_strlit("e-6");
    let body = a + "e-6"@;
    assert(is_digit(a[0]));
    if sign == "-"@ {
        assert(s[0] == '-');
        assert(s.skip(1) =~= body);
    } else {
        assert(s =~= body);
        assert(s[0] == a[0]);
    }
    assert(unsigned(s) == body);
    assert forall|i: int| 0 <= i < a.len() implies #[trigger] a[i] != 'e' && a[i] != 'E' && a[i]
        != '.' by {
        assert(is_digit(a[i]));
    }
    lemma_first_behind(a, "e-6"@, 'e', 'E');
    assert("e-6"@[0] == 'e');
    assert(mantissa(s) =~= a);
    assert(has_exponent(s));
    assert(exponent_text(s) =~= seq!['-', '6']);
    assert(unsigned(exponent_text(s)) =~= seq!['6']);
    assert(numeral(seq!['6']) == 6) by {
        reveal_with_fuel(numeral, 2);
        assert(seq!['6'].drop_last() =~= Seq::empty());
    }
    lemma_first_behind(a, Seq::empty(), '.', '.');
    assert(a + Seq::<char>::empty() =~= a);
    assert(whole_part(s) =~= a);
    assert(fraction_part(s) =~= Seq::empty());
    assert(whole_part(s) + fraction_part(s) =~= a);
    assert(exponent(s) == -6);
    assert(a.take(a.len() as int) =~= a);
}

/// An amount that is written with as few decimals as it needs is read back as it was.
pub proof fn law_number_reads_back(value: i64)
    ensures
        decimal_value(number_text(value as int)) == Some(value),
{
    let v: int = value as int;
    reveal_strlit("-");
    reveal_strlit("");
    assert("-"@.len() != ""@.len());
    if 0 < v < 10 {
        law_digits(v as nat);
        assert(number_text(v) =~= ""@ + digits(v as nat) + "e-6"@);
        lemma_reads_exponent(number_text(v), ""@, digits(v as nat));
    } else if -10 < v < 0 {
        law_digits((-v) as nat);
        lemma_reads_exponent(number_text(v), "-"@, digits((-v) as nat));
    } else {
        let size: nat = if v < 0 { (-v) as nat } else { v as nat };
        let d: nat = decimals_needed(size);
        law_fixed_reads_back(v, d);
        reveal_with_fuel(power10, 7);
        law_nearest(size, power10((6 - d) as nat));
    }
}

/// The digits of a port are read as it, and those of a larger number not at all.
pub proof fn law_port_reads_back(n: nat)
    ensures
        port_value(digits(n)) == if n <= u16::MAX { Some(n as u16) } else { None },
{
    law_digits(n);
    assert(is_digit(digits(n)[0]));
}

/// A text ends with what was put behind it, and with nothing of that length else.
pub proof fn law_ends_with(a: Seq<char>, tail: Seq<char>, other: Seq<char>)
    requires
        other.len() == tail.len(),
    ensures
        ends_with(a + tail, other) <==> other == tail,
{
    assert((a + tail).skip((a + tail).len() - tail.len()) =~= tail);
}

/// A run of digits is less than ten to the power of their number.
proof fn lemma_numeral_bound(s: Seq<char>)
    requires
        all_digits(s),
    ensures
        numeral(s) < power10(s.len()),
    decreases s.len(),
{
    if s.len() > 0 {
        let front = s.drop_last();
        assert forall|i: int| 0 <= i < front.len() implies is_digit(#[trigger] front[i]) by {
            assert(front[i] == s[i]);
        }
        lemma_numeral_bound(front);
        assert(is_digit(s[s.len() - 1]));
    }
}

/// A decimal numeral stands for its number of millionths; what its digits say beyond the
/// sixth decimal is cut off.
pub proof fn law_decimals_are_cut(a: Seq<char>, b: Seq<char>)
    requires
        all_digits(a),
        all_digits(b),
        0 < a.len(),
        6 <= b.len(),
    ensures
        ({
            let size = decimal_size(a + "."@ + b) as int;
            let unit = power10((b.len() - 6) as nat);
            &&& size * unit <= numeral(a + b) < (size + 1) * unit
            &&& decimal_value(a + "."@ + b) == Some(held(size) as i64)
            &&& decimal_value("-"@ + a + "."@ + b) == Some(held(-size) as i64)
        }),
{
    reveal_strlit("-");
    reveal_strlit("");
    let s = a + "."@ + b;
    let t = "-"@ + a + "."@ + b;
    let all = a + b;
    let k: int = a.len() as int + 6;
    assert(s =~= ""@ + a + "."@ + b);
    lemma_point_parts(s, ""@, a, b);
    lemma_point_parts(t, "-"@, a, b);
    assert("-"@.len() != ""@.len());
    let front = all.take(k);
    let rest = all.skip(k);
    assert(front + rest =~= all);
    assert forall|i: int| 0 <= i < rest.len() implies is_digit(#[trigger] rest[i]) by {
        assert(rest[i] == b[i + 6]);
    }
    law_numeral_of_both(front, rest);
    lemma_numeral_bound(rest);
    let x: int = numeral(front) as int;
    let p: int = power10(rest.len()) as int;
    assert((x + 1) * p == x * p + p) by (nonlinear_arith);
    assert(leading(all, k) == numeral(front));
}

/// The parts of digits with a point among them.
proof fn lemma_point_parts(s: Seq<char>, sign: Seq<char>, a: Seq<char>, b: Seq<char>)
    requires
        s == sign + a + "."@ + b,
        sign == "-"@ || sign == ""@,
        all_digits(a),
        all_digits(b),
        0 < a.len(),
    ensures
        is_decimal(s),
        negative(s) == (sign == "-"@),
        decimal_size(s) == leading(a + b, a.len() as int + 6),
{
    reveal_strlit("-");
    reveal_strlit("");
    reveal_strlit(".");
    let body = a + "."@ + b;
    assert(is_digit(a[0]));
    if sign == "-"@ {
        assert(s[0] == '-');
        assert(s.skip(1) =~= body);
    } else {
        assert(s =~= body);
        assert(s[0] == a[0]);
    }
    assert(unsigned(s) == body);
    assert forall|i: int| 0 <= i < body.len() implies #[trigger] body[i] != 'e' && body[i]
        != 'E' by {
        if i < a.len() {
            assert(is_digit(a[i]));
        } else if i > a.len() {
            assert(is_digit(b[i - a.len() - 1]));
        }
    }
    lemma_first_behind(body, Seq::empty(), 'e', 'E');
    assert(body + Seq::<char>::empty() =~= body);
    assert(mantissa(s) =~= body);
    assert forall|i: int| 0 <= i < a.len() implies #[trigger] a[i] != '.' by {
        assert(is_digit(a[i]));
    }
    lemma_first_behind(a, "."@ + b, '.', '.');
    assert(body =~= a + ("."@ + b));
    assert(("."@ + b)[0] == '.');
    assert(whole_part(s) =~= a);
    assert(fraction_part(s) =~= b);
}

/// The head of a text of ASCII characters is its first characters: as many as asked for,
/// or all of them where it is no longer. Such a text can be cut anywhere.
pub proof fn law_head_of_ascii(s: Seq<char>, n: nat)
    requires
        is_ascii_chars(s),
    ensures
        head_text(s, n) == if n < s.len() { s.take(n as int) } else { s },
{
    let k: int = if n < s.len() { n as int } else { s.len() as int };
    let front = s.take(k);
    assert forall|i: int| 0 <= i < front.len() implies '\0' <= #[trigger] front[i]
        <= '\u{7f}' by {
        assert('\0' <= s[i] <= '\u{7f}');
    }
    is_ascii_chars_encode_utf8(s);
    is_ascii_chars_encode_utf8(front);
    assert(encode_utf8(s).take(k) =~= encode_utf8(front)) by {
        assert forall|i: int| 0 <= i < k implies #[trigger] encode_utf8(s).take(k)[i]
            == encode_utf8(front)[i] by {
            assert(s[i] as u8 == encode_utf8(s)[i]);
            assert(front[i] as u8 == encode_utf8(front)[i]);
        }
    }
    encode_utf8_decode_utf8(front);
    assert(s.take(s.len() as int) =~= s);
}

/// A setting that holds a written amount is read as that amount, whatever the default;
/// one that is missing is the default.
pub proof fn law_setting_reads_back(value: Option<String>, amount: i64, default: i64)
    requires
        value matches Some(text) ==> text@ == number_text(amount as int),
    ensures
        amount_setting(value, default) == if value is Some { amount } else { default },
{
    law_number_reads_back(amount);
}

/// What is asked of the exchange is asked at its address: both addresses start with it,
/// and are the same only for the same address.
pub proof fn law_addresses(a: Seq<char>, b: Seq<char>)
    ensures
        order_address(a).take(a.len() as int) == a,
        ends_with(order_address(a), "/order"@),
        markets_address(a).take(a.len() as int) == a,
        ends_with(markets_address(a), "?active=true&closed=false"@),
        order_address(a) == order_address(b) <==> a == b,
        markets_address(a) == markets_address(b) <==> a == b,
{
    reveal_strlit("/order");
    reveal_strlit("/markets?active=true&closed=false");
    reveal_strlit("?active=true&closed=false");
    assert(order_address(a).take(a.len() as int) =~= a);
    assert(markets_address(a).take(a.len() as int) =~= a);
    assert(order_address(b).take(b.len() as int) =~= b);
    assert(markets_address(b).take(b.len() as int) =~= b);
    assert(order_address(a).skip(a.len() as int) =~= "/order"@);
    let long = "/markets?active=true&closed=false"@;
    let short = "?active=true&closed=false"@;
    let all = markets_address(a);
    assert(all.skip(all.len() - short.len()) =~= short);
}

/// The key follows the word that announces it: different keys identify differently.
pub proof fn law_bearer(key: Seq<char>, other: Seq<char>)
    ensures
        bearer(key).len() == key.len() + 7,
        bearer(key).skip(7) == key,
        bearer(key) == bearer(other) <==> key == other,
{
    reveal_strlit("Bearer ");
    assert(bearer(key).skip(7) =~= key);
    assert(bearer(other).skip(7) =~= other);
}

/// A run is a dry one where nothing is set, and else exactly where the setting reads
/// `true` or `1`.
pub proof fn law_dry_run_setting(value: Option<String>)
    ensures
        value is None ==> dry_run_setting(value),
        value matches Some(text) ==> (dry_run_setting(value) <==> text@ == seq!['1'] || text@
            == seq!['t', 'r', 'u', 'e']),
{
    reveal_strlit("true");
    reveal_strlit("1");
    assert("true"@ =~= seq!['t', 'r', 'u', 'e']);
    assert("1"@ =~= seq!['1']);
}

/// An amount that is written without decimals reads as the nearest whole number.
pub proof fn law_whole_reads_back(value: int)
    ensures
        ({
            let size = if value < 0 { (-value) as nat } else { value as nat };
            let text = fixed_text(value, 0);
            &&& numeral(unsigned(text)) == nearest(size, 1_000_000)
            &&& all_digits(unsigned(text))
            &&& negative(text) <==> value < 0
        }),
{
    let size: nat = if value < 0 { (-value) as nat } else { value as nat };
    reveal_with_fuel(power10, 7);
    reveal_strlit("-");
    reveal_strlit("");
    let shown: nat = nearest(size, 1_000_000);
    let text = fixed_text(value, 0);
    law_digits(shown);
    assert(is_digit(digits(shown)[0]));
    assert(power10(6) == 1_000_000 && power10(0) == 1);
    assert(shown / 1 == shown);
    if value < 0 {
        assert(text[0] == '-');
        assert(text.skip(1) =~= digits(shown));
    } else {
        assert(text =~= digits(shown));
    }
}

} // verus!
