//! Human-readable formatting helpers.
use vstd::prelude::*;
use vstd::string::*;

use crate::text::{decimal, decimal_text, digit_char};

verus! {

/// `n / d` rounded to the nearest whole number; of two equally near ones, the even
/// one.
pub open spec fn div_nearest(n: nat, d: nat) -> nat
    recommends
        d > 0,
{
    let q = n / d;
    let r = n % d;
    if 2 * r < d || (2 * r == d && q % 2 == 0) {
        q
    } else {
        q + 1
    }
}

/// The distance of neighbouring double-precision numbers around `n`, for a whole
/// number: a power of two that leaves 53 binary digits.
pub open spec fn double_step(n: nat) -> nat
    decreases n,
{
    if n < 0x20_0000_0000_0000 {
        1
    } else {
        2 * double_step(n / 2)
    }
}

/// The double-precision number nearest to `n`.
pub open spec fn nearest_double(n: nat) -> nat {
    div_nearest(n, double_step(n)) * double_step(n)
}

/// How many times a size can be divided by 1024 before it is below 1024, at most five
/// times.
pub open spec fn unit_index(size: nat) -> nat {
    if size < 0x400 {
        0
    } else if size < 0x10_0000 {
        1
    } else if size < 0x4000_0000 {
        2
    } else if size < 0x100_0000_0000 {
        3
    } else if size < 0x4_0000_0000_0000 {
        4
    } else {
        5
    }
}

/// The bytes in a unit.
pub open spec fn unit_bytes(unit: nat) -> nat {
    if unit == 0 {
        1
    } else if unit == 1 {
        0x400
    } else if unit == 2 {
        0x10_0000
    } else if unit == 3 {
        0x4000_0000
    } else if unit == 4 {
        0x100_0000_0000
    } else {
        0x4_0000_0000_0000
    }
}

/// The name of a unit.
pub open spec fn unit_name(unit: nat) -> Seq<char> {
    if unit == 0 {
        "B"@
    } else if unit == 1 {
        "KB"@
    } else if unit == 2 {
        "MB"@
    } else if unit == 3 {
        "GB"@
    } else if unit == 4 {
        "TB"@
    } else {
        "PB"@
    }
}

/// A number of tenths, with one decimal place.
pub open spec fn one_decimal(tenths: nat) -> Seq<char> {
    decimal(tenths / 10) + "."@ + decimal(tenths % 10)
}

/// The tenths of a unit that a size is shown as.
pub open spec fn shown_tenths(size: nat, unit: nat) -> nat {
    div_nearest(10 * size, unit_bytes(unit))
}

/// A byte count in binary units: whole bytes below 1024, above that one decimal place
/// of the size as a double-precision number.
pub open spec fn human(bytes: u64) -> Seq<char> {
    if bytes < 1024 {
        decimal(bytes as nat) + " B"@
    } else {
        let size = nearest_double(bytes as nat);
        let unit = unit_index(size);
        one_decimal(shown_tenths(size, unit)) + " "@ + unit_name(unit)
    }
}

fn find_double_step(n: u64) -> (step: u64)
    ensures
        step == double_step(n as nat),
        step == 1 || step * 0x10_0000_0000_0000 <= n,
        step >= 1,
    decreases n,
{
    if n < 0x20_0000_0000_0000 {
        1
    } else {
        2 * find_double_step(n / 2)
    }
}

fn divide_nearest(n: u128, d: u128) -> (q: u128)
    requires
        0 < d <= 0x4_0000_0000_0000,
        n < 0x1_0000_0000_0000_0000_0000,
    ensures
        q == div_nearest(n as nat, d as nat),
        q <= n / d + 1,
{
    let q: u128 = n / d;
    let r: u128 = n % d;
    if 2 * r < d || (2 * r == d && q % 2 == 0) {
        q
    } else {
        q + 1
    }
}

fn round_to_double(n: u64) -> (size: u128)
    ensures
        size == nearest_double(n as nat),
        size <= 0x1_0000_0000_0000_1000,
        n >= 1024 ==> size >= 1024,
{
    let step: u128 = find_double_step(n) as u128;
    let q = divide_nearest(n as u128, step);
    proof {
        let whole = n as int / step as int;
        assert(q == whole || q == whole + 1);
        assert(whole * step <= n) by (nonlinear_arith)
            requires
                step > 0,
                whole == n as int / step as int,
        ;
        assert((whole + 1) * step == whole * step + step) by (nonlinear_arith);
        assert(step < 4096);
        assert(whole * step > n - step) by (nonlinear_arith)
            requires
                step > 0,
                whole == n as int / step as int,
        ;
        if step == 1 {
            assert(q == n);
        }
    }
    q * step
}

fn one_decimal_text(tenths: u64) -> (text: String)
    ensures
        text@ == one_decimal(tenths as nat),
{
    let mut text = decimal_text(tenths / 10);
    text.append(".");
    text.append(decimal_text(tenths % 10).as_str());
    text
}

/// Format a byte count as a human-readable string using binary (1024) units.
///
/// Whole bytes are shown without a decimal; larger units use one decimal place.
pub fn human_size(bytes: u64) -> (text: String)
    ensures
        text@ == human(bytes),
{
    if bytes < 1024 {
        let mut text = decimal_text(bytes);
        text.append(" B");
        return text;
    }
    let size = round_to_double(bytes);
    let (unit_bytes, unit): (u128, &str) = if size < 0x10_0000 {
        (0x400, "KB")
    } else if size < 0x4000_0000 {
        (0x10_0000, "MB")
    } else if size < 0x100_0000_0000 {
        (0x4000_0000, "GB")
    } else if size < 0x4_0000_0000_0000 {
        (0x100_0000_0000, "TB")
    } else {
        (0x4_0000_0000_0000, "PB")
    };
    let tenths = divide_nearest(10 * size, unit_bytes);
    proof {
        let n = 10 * size;
        if unit_bytes == 0x400 {
            assert(n / 0x400 <= 20_000);
        } else if unit_bytes == 0x10_0000 {
            assert(n / 0x10_0000 <= 20_000);
        } else if unit_bytes == 0x4000_0000 {
            assert(n / 0x4000_0000 <= 20_000);
        } else if unit_bytes == 0x100_0000_0000 {
            assert(n / 0x100_0000_0000 <= 20_000);
        } else {
            assert(n / 0x4_0000_0000_0000 <= 200_000);
        }
    }
    let mut text = one_decimal_text(tenths as u64);
    text.append(" ");
    text.append(unit);
    text
}

/// Digits in groups of three, counted from the end, with commas between them.
pub open spec fn grouped(digits: Seq<char>) -> Seq<char>
    decreases digits.len(),
{
    if digits.len() <= 3 {
        digits
    } else {
        grouped(digits.take(digits.len() - 3)) + ","@ + digits.skip(digits.len() - 3)
    }
}

proof fn lemma_last_three(n: nat)
    requires
        n >= 1000,
    ensures
        decimal(n) == decimal(n / 1000) + seq![
            digit_char(((n / 100) % 10) as int),
            digit_char(((n / 10) % 10) as int),
            digit_char((n % 10) as int),
        ],
{
    let a = n / 10;
    let b = a / 10;
    assert(b == n / 100);
    assert(b / 10 == n / 1000);
    assert(decimal(n) == decimal(a).push(digit_char((n % 10) as int)));
    assert(decimal(a) == decimal(b).push(digit_char((a % 10) as int)));
    assert(decimal(b) == decimal(b / 10).push(digit_char((b % 10) as int)));
    assert(decimal(n) =~= decimal(n / 1000) + seq![
        digit_char(((n / 100) % 10) as int),
        digit_char(((n / 10) % 10) as int),
        digit_char((n % 10) as int),
    ]);
}

proof fn lemma_one_digit(d: nat)
    requires
        d < 10,
    ensures
        decimal(d) == seq![digit_char(d as int)],
{
}

/// Group a number with thousands separators, e.g. `1234567` → `"1,234,567"`.
pub fn thousands(n: u64) -> (text: String)
    ensures
        text@ == grouped(decimal(n as nat)),
    decreases n,
{
    if n < 1000 {
        proof {
            reveal_with_fuel(decimal, 3);
        }
        return decimal_text(n);
    }
    let mut text = thousands(n / 1000);
    let ghost front = text@;
    text.append(",");
    text.append(decimal_text((n / 100) % 10).as_str());
    text.append(decimal_text((n / 10) % 10).as_str());
    text.append(decimal_text(n % 10).as_str());
    proof {
        lemma_last_three(n as nat);
        lemma_one_digit(((n / 100) % 10) as nat);
        lemma_one_digit(((n / 10) % 10) as nat);
        lemma_one_digit((n % 10) as nat);
        let d = decimal(n as nat);
        let f = decimal((n / 1000) as nat);
        assert(f.len() > 0);
        assert(d.take(d.len() - 3) =~= f);
        assert(text@ =~= grouped(f) + ","@ + d.skip(d.len() - 3));
    }
    text
}

/// Separators are all that grouping adds: without its commas, a grouped number is
/// the number as it was.
pub proof fn grouping_keeps_the_digits(digits: Seq<char>)
    requires
        !digits.contains(','),
    ensures
        grouped(digits).filter(|c: char| c != ',') == digits,
    decreases digits.len(),
{
    let keep = |c: char| c != ',';
    if digits.len() <= 3 {
        lemma_filter_keeps_all(digits, keep);
    } else {
        let front = digits.take(digits.len() - 3);
        let back = digits.skip(digits.len() - 3);
        assert forall|i: int| 0 <= i < front.len() implies front[i] != ',' by {
            assert(digits.contains(digits[i]));
        }
        assert forall|i: int| 0 <= i < back.len() implies back[i] != ',' by {
            assert(digits.contains(digits[i + digits.len() - 3]));
        }
        grouping_keeps_the_digits(front);
        lemma_filter_keeps_all(back, keep);
        reveal_strlit(",");
        Seq::filter_distributes_over_add(grouped(front) + ","@, back, keep);
        Seq::filter_distributes_over_add(grouped(front), ","@, keep);
        assert(","@.filter(keep) =~= Seq::<char>::empty()) by {
            assert(","@ =~= seq![',']);
            reveal(Seq::filter);
            assert(seq![','].drop_last().filter(keep) =~= Seq::<char>::empty());
        }
        assert(grouped(digits).filter(keep) =~= front + back);
        assert(front + back =~= digits);
    }
}

proof fn lemma_filter_keeps_all(s: Seq<char>, keep: spec_fn(char) -> bool)
    requires
        forall|i: int| 0 <= i < s.len() ==> keep(#[trigger] s[i]),
    ensures
        s.filter(keep) == s,
    decreases s.len(),
{
    reveal(Seq::filter);
    if s.len() > 0 {
        lemma_filter_keeps_all(s.drop_last(), keep);
        assert(s =~= s.drop_last().push(s.last()));
    }
}

/// Commas stand before every third digit, counted from the end: the separators are
/// at the fourth place from the end, and at every fourth place before that, and
/// nowhere else.
pub proof fn commas_stand_every_three_digits(digits: Seq<char>, i: int)
    requires
        !digits.contains(','),
        0 <= i < grouped(digits).len(),
    ensures
        grouped(digits)[i] == ',' <==> (grouped(digits).len() - i) % 4 == 0,
    decreases digits.len(),
{
    reveal_strlit(",");
    if digits.len() <= 3 {
        assert(digits.contains(digits[i]));
    } else {
        let front = digits.take(digits.len() - 3);
        let back = digits.skip(digits.len() - 3);
        assert forall|k: int| 0 <= k < front.len() implies front[k] != ',' by {
            assert(digits.contains(digits[k]));
        }
        if i < grouped(front).len() {
            commas_stand_every_three_digits(front, i);
        } else if i > grouped(front).len() {
            let k = i - grouped(front).len() - 1;
            assert(grouped(digits)[i] == back[k]);
            assert(digits.contains(digits[k + digits.len() - 3]));
        }
    }
}

/// A number in decimal notation holds no comma, so that grouping it can be undone.
pub proof fn decimals_hold_no_comma(n: nat)
    ensures
        !decimal(n).contains(','),
    decreases n,
{
    if n >= 10 {
        decimals_hold_no_comma(n / 10);
        assert forall|i: int| 0 <= i < decimal(n).len() implies decimal(n)[i] != ',' by {
            if i < decimal(n / 10).len() {
                assert(decimal(n / 10).contains(decimal(n / 10)[i]));
            }
        }
    }
}

/// What is shown is the nearest there is: no whole number is nearer to a quotient than
/// the rounded one.
pub proof fn rounding_is_to_nearest(n: nat, d: nat, other: nat)
    requires
        d > 0,
    ensures
        off_by(n, d, div_nearest(n, d)) <= off_by(n, d, other),
{
    let q = (n / d) as int;
    let r = (n % d) as int;
    assert(n == q * d + r && 0 <= r < d) by (nonlinear_arith)
        requires
            d > 0,
            q == n as int / d as int,
            r == n as int % d as int,
    ;
    assert((q + 1) * d == q * d + d) by (nonlinear_arith);
    if other <= q {
        assert(other * d <= q * d) by (nonlinear_arith)
            requires
                other <= q,
                d > 0,
        ;
    } else {
        assert(other * d >= (q + 1) * d) by (nonlinear_arith)
            requires
                other >= q + 1,
                d > 0,
        ;
    }
}

/// How far a whole number is from the quotient of `n` and `d`, in parts of `d`.
pub open spec fn off_by(n: nat, d: nat, whole: nat) -> int {
    if whole * d >= n {
        whole * d - n
    } else {
        n - whole * d
    }
}

/// Below 2^53 every whole number of bytes is taken exactly.
pub proof fn small_sizes_are_exact(bytes: u64)
    requires
        bytes < 0x20_0000_0000_0000,
    ensures
        nearest_double(bytes as nat) == bytes,
{
    let n = bytes as nat;
    assert(double_step(n) == 1);
    assert(n / 1 == n && n % 1 == 0);
}

/// The unit is the one in which the size is at least one and below 1024, up to the
/// largest unit.
pub proof fn units_fit_the_size(bytes: u64)
    requires
        bytes >= 1024,
    ensures
        ({
            let size = nearest_double(bytes as nat);
            let unit = unit_index(size);
            &&& 1 <= unit <= 5
            &&& unit_bytes(unit) <= size
            &&& unit < 5 ==> size < 1024 * unit_bytes(unit)
        }),
{
    lemma_nearest_double_is_near(bytes as nat);
}

proof fn lemma_double_step(n: nat)
    ensures
        double_step(n) >= 1,
        double_step(n) == 1 || double_step(n) * 0x10_0000_0000_0000 <= n,
    decreases n,
{
    if n >= 0x20_0000_0000_0000 {
        lemma_double_step(n / 2);
    }
}

proof fn lemma_nearest_double_is_near(n: nat)
    ensures
        n >= 1024 ==> nearest_double(n) >= 1024,
{
    lemma_double_step(n);
    let step = double_step(n) as int;
    let whole = n as int / step;
    assert(whole * step > n - step) by (nonlinear_arith)
        requires
            step > 0,
            whole == n as int / step,
    ;
    assert((whole + 1) * step == whole * step + step) by (nonlinear_arith);
}

} // verus!
