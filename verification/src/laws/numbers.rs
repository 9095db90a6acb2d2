//! Numbers and sizes as the user reads them.
use vstd::arithmetic::power::{lemma_pow0, pow};
use vstd::prelude::*;

use crate::format::{
    commas_stand_every_three_digits, decimals_hold_no_comma, div_nearest, double_step, grouped,
    grouping_keeps_the_digits, human_size, nearest_double, shown_tenths, small_sizes_are_exact, thousands, unit_bytes,
    unit_index, units_fit_the_size,
};
use crate::text::{decimal, decimal_text, digit_char};

verus! {

/// The number that decimal digits stand for.
pub open spec fn value_of(digits: Seq<char>) -> int {
    digits.fold_left(0, |value: int, c: char| 10 * value + (c as int - '0' as int))
}

/// Decimal notation holds digits alone, without a zero in front unless the number is
/// zero, and the digits stand for the number.
pub proof fn digits_stand_for_the_number(n: nat)
    ensures
        decimal(n).len() > 0,
        forall|i: int| 0 <= i < decimal(n).len() ==> '0' <= #[trigger] decimal(n)[i] <= '9',
        decimal(n)[0] == '0' ==> n == 0 && decimal(n).len() == 1,
        value_of(decimal(n)) == n,
    decreases n,
{
    let f = |value: int, c: char| 10 * value + (c as int - '0' as int);
    if n < 10 {
        let d = decimal(n);
        assert(d =~= seq![digit_char(n as int)]);
        assert(d.drop_last() =~= Seq::<char>::empty());
        reveal_with_fuel(Seq::fold_left, 2);
        assert(d.fold_left(0, f) == n);
    } else {
        digits_stand_for_the_number(n / 10);
        let d = decimal(n);
        let front = decimal(n / 10);
        assert(d == front.push(digit_char((n % 10) as int)));
        assert(d.drop_last() =~= front);
        assert(d[0] == front[0]);
        assert(front[0] == '0' ==> n / 10 == 0);
        assert(d.fold_left(0, f) == f(front.fold_left(0, f), d.last()));
    }
}

/// A number is written in decimal notation.
pub proof fn numbers_are_written_in_digits(n: u64, text: String)
    requires
        call_ensures(decimal_text, (n,), text),
    ensures
        forall|i: int| 0 <= i < text@.len() ==> '0' <= #[trigger] text@[i] <= '9',
        text@.len() > 0,
        text@[0] == '0' ==> n == 0 && text@.len() == 1,
        value_of(text@) == n,
{
    digits_stand_for_the_number(n as nat);
}

/// A grouped number reads as the number without its commas, and its commas stand before
/// every third digit from the end.
pub proof fn thousands_are_set_apart(n: u64, text: String)
    requires
        call_ensures(thousands, (n,), text),
    ensures
        value_of(text@.filter(|c: char| c != ',')) == n,
        forall|i: int| 0 <= i < text@.len() ==> (#[trigger] text@[i] == ',' <==> (text@.len() - i) % 4 == 0),
        text@.len() > 0 && text@[0] != ',',
        text@[0] == '0' ==> n == 0 && text@.len() == 1,
        forall|i: int| 0 <= i < text@.len() ==> #[trigger] text@[i] == ',' || '0' <= text@[i] <= '9',
{
    let d = decimal(n as nat);
    digits_stand_for_the_number(n as nat);
    decimals_hold_no_comma(n as nat);
    grouping_keeps_the_digits(d);
    assert forall|i: int| 0 <= i < text@.len() implies (#[trigger] text@[i] == ',' <==> (text@.len() - i) % 4 == 0) by {
        commas_stand_every_three_digits(d, i);
    }
    lemma_grouped(d);
}

proof fn lemma_grouped(d: Seq<char>)
    requires
        d.len() > 0,
        forall|i: int| 0 <= i < d.len() ==> '0' <= #[trigger] d[i] <= '9',
    ensures
        grouped(d).len() >= d.len(),
        grouped(d)[0] == d[0],
        grouped(d).len() == 1 ==> d.len() == 1,
        d.len() == 1 ==> grouped(d).len() == 1,
        forall|i: int| 0 <= i < grouped(d).len() ==> #[trigger] grouped(d)[i] == ',' || '0' <= grouped(d)[i] <= '9',
    decreases d.len(),
{
    reveal_strlit(",");
    if d.len() > 3 {
        lemma_grouped(d.take(d.len() - 3));
    }
}

/// The bytes of a unit are a power of 1024.
proof fn lemma_units(unit: nat)
    requires
        unit <= 5,
    ensures
        unit_bytes(unit) == pow(1024, unit),
{
    reveal_with_fuel(pow, 6);
}

/// A size below 1024 is shown as its bytes. Any other is shown in the unit, a power of
/// 1024, in which it is at least one and, but for the largest unit, below 1024; with one
/// decimal, which is nearest to the size, and even where two are as near.
pub proof fn sizes_are_shown_in_their_unit(bytes: u64, text: String) -> (shown: (nat, nat))
    requires
        call_ensures(human_size, (bytes,), text),
    ensures
        bytes < 1024 ==> text@ == decimal(bytes as nat) + " B"@,
        bytes >= 1024 ==> ({
            let (unit, tenths) = shown;
            let size = nearest_double(bytes as nat);
            let one = pow(1024, unit);
            &&& 1 <= unit <= 5
            &&& one <= size
            &&& unit < 5 ==> size < 1024 * one
            &&& -one <= 2 * (tenths * one - 10 * size) <= one
            &&& 2 * (tenths * one - 10 * size) == one || 2 * (10 * size - tenths * one) == one ==> tenths % 2 == 0
            &&& text@ == decimal(tenths / 10) + "."@ + decimal(tenths % 10) + " "@ + (if unit == 1 {
                "KB"@
            } else if unit == 2 {
                "MB"@
            } else if unit == 3 {
                "GB"@
            } else if unit == 4 {
                "TB"@
            } else {
                "PB"@
            })
        }),
{
    let size = nearest_double(bytes as nat);
    let unit = unit_index(size);
    let tenths = shown_tenths(size, unit);
    if bytes >= 1024 {
        units_fit_the_size(bytes);
        lemma_units(unit);
        lemma_rounded(10 * size, unit_bytes(unit));
    }
    (unit, tenths)
}

proof fn lemma_rounded(n: nat, d: nat)
    requires
        d > 0,
    ensures
        ({
            let q = div_nearest(n, d) as int;
            &&& -d <= 2 * (q * d - n) <= d
            &&& 2 * (q * d - n) == d || 2 * (n - q * d) == d ==> q % 2 == 0
        }),
{
    let q = (n / d) as int;
    let r = (n % d) as int;
    assert(n == q * d + r && 0 <= r < d) by (nonlinear_arith)
        requires
            d > 0,
            q == n as int / d as int,
            r == n as int % d as int,
    ;
    assert((q + 1) * d == q * d + d) by (nonlinear_arith);
}

/// Sizes are taken as double-precision numbers: exactly below 2^53, and above that to 53
/// binary digits, to the nearest such number, and to the even one of two that are as near.
pub proof fn sizes_are_taken_as_doubles(n: nat) -> (bits: nat)
    ensures
        n < pow(2, 53) ==> nearest_double(n) == n,
        n >= pow(2, 53) ==> ({
            let step = pow(2, bits);
            &&& pow(2, 52) * step <= n < pow(2, 53) * step
            &&& nearest_double(n) as int % step == 0
            &&& -step <= 2 * (nearest_double(n) - n) <= step
            &&& 2 * (nearest_double(n) - n) == step || 2 * (n - nearest_double(n)) == step ==> (nearest_double(n) as int / step) % 2 == 0
        }),
{
    lemma_two_powers();
    let step = double_step(n) as int;
    let bits = lemma_step(n);
    if n < 0x20_0000_0000_0000 {
        small_sizes_are_exact(n as u64);
    } else {
        lemma_rounded(n, step as nat);
        let q = div_nearest(n, step as nat) as int;
        assert((q * step) % step == 0 && (q * step) / step == q) by (nonlinear_arith)
            requires
                step > 0,
        ;
    }
    bits
}

proof fn lemma_two_powers()
    ensures
        pow(2, 52) == 0x10_0000_0000_0000,
        pow(2, 53) == 0x20_0000_0000_0000,
{
    reveal_with_fuel(pow, 54);
}

proof fn lemma_step(n: nat) -> (bits: nat)
    ensures
        double_step(n) == pow(2, bits),
        double_step(n) > 0,
        n >= 0x20_0000_0000_0000 ==> 0x10_0000_0000_0000 * double_step(n) <= n < 0x20_0000_0000_0000 * double_step(n),
    decreases n,
{
    if n < 0x20_0000_0000_0000 {
        lemma_pow0(2);
        0
    } else {
        let bits = lemma_step(n / 2);
        reveal(pow);
        assert(pow(2, (bits + 1) as nat) == 2 * pow(2, bits));
        bits + 1
    }
}

} // verus!
