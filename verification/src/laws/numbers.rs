//! Promises of the numbers that are written down.
use vstd::arithmetic::power2::*;
use vstd::prelude::*;
use vstd::string::*;

use crate::float::{
    double_low, exponent, four_digits, four_places_text, half_even, is_normal, lemma_root_exists,
    lemma_root_scale, lemma_root_scale_bound, lemma_rounded, lemma_sum_normal, lemma_unpacked,
    pack_single, root_scale, root_significand, rounded, significand, single_low, sum_of,
    ten_thousandths, three_plus_twice_root, value, Double, Single,
};
use crate::laws::fusion::lemma_half_unit;
use crate::storage::{StoredChunk, StoredChunkView};
use crate::text::{all_digits, decimal, digit, digits_value, is_digit, lemma_decimal};
use crate::visualizer::{countable, definition_size, size_for};

verus! {

proof fn lemma_digit(n: nat)
    requires
        n < 10,
    ensures
        is_digit(digit(n)),
        digit(n) as u32 - '0' as u32 == n,
{
}

proof fn lemma_next_digit(front: Seq<char>, n: nat)
    requires
        n < 10,
    ensures
        digits_value(front.push(digit(n))) == 10 * digits_value(front) + n,
{
    lemma_digit(n);
    assert(front.push(digit(n)).drop_last() =~= front);
}

proof fn lemma_places(n: nat)
    requires
        n < 10_000,
    ensures
        n == 1000 * (n / 1000 % 10) + 100 * (n / 100 % 10) + 10 * (n / 10 % 10) + n % 10,
{
    let x = n / 10;
    let y = x / 10;
    let z = y / 10;
    vstd::arithmetic::div_mod::lemma_div_denominator(n as int, 10, 10);
    vstd::arithmetic::div_mod::lemma_div_denominator(n as int, 100, 10);
    assert(n / 100 == y && n / 1000 == z);
    assert(n == 10 * x + n % 10);
    assert(x == 10 * y + x % 10);
    assert(y == 10 * z + y % 10);
    assert(z < 10 && z % 10 == z);
}

proof fn lemma_four_digits(n: nat)
    requires
        n < 10_000,
    ensures
        four_digits(n).len() == 4,
        all_digits(four_digits(n)),
        digits_value(four_digits(n)) == n,
{
    let a = n / 1000 % 10;
    let b = n / 100 % 10;
    let c = n / 10 % 10;
    let d = n % 10;
    lemma_places(n);
    let none = Seq::<char>::empty();
    let one = none.push(digit(a));
    let two = one.push(digit(b));
    let three = two.push(digit(c));
    lemma_next_digit(none, a);
    lemma_next_digit(one, b);
    lemma_next_digit(two, c);
    lemma_next_digit(three, d);
    lemma_digit(a);
    lemma_digit(b);
    lemma_digit(c);
    lemma_digit(d);
    assert(four_digits(n) =~= three.push(digit(d)));
    assert(digits_value(none) == 0);
}

/// A score is written with four places, rounded to the nearest: in ten-thousandths it
/// is half of one away at most. A single is told here in its smallest units, of which
/// one has two to the one hundred and forty-ninth.
pub proof fn scores_are_rounded_to_four_places(bits: u32) -> (written: (Seq<char>, Seq<char>))
    requires
        is_normal(bits as int) || bits == 0,
    ensures
        four_places_text(bits) == written.0 + "."@ + written.1,
        all_digits(written.0),
        all_digits(written.1),
        written.0.len() > 0,
        written.1.len() == 4,
        ({
            let n = 10_000 * digits_value(written.0) + digits_value(written.1);
            &&& 2 * (n * pow2(149) - 10_000 * value(bits as int)) <= pow2(149)
            &&& 2 * (10_000 * value(bits as int) - n * pow2(149)) <= pow2(149)
        }),
{
    let n = ten_thousandths(bits as int);
    let whole = decimal(n / 10_000);
    let places = four_digits(n % 10_000);
    lemma_decimal(n / 10_000);
    lemma_four_digits(n % 10_000);
    assert(bits as int % 0x8000_0000 == bits);
    assert(four_places_text(bits) =~= whole + "."@ + places);
    assert(10_000 * (n / 10_000) + n % 10_000 == n);
    lemma_ten_thousandths(bits as int);
    (whole, places)
}

/// The ten-thousandths of a number are rounded to the nearest.
proof fn lemma_ten_thousandths(bits: int)
    requires
        is_normal(bits) || bits == 0,
    ensures
        ({
            let n = ten_thousandths(bits);
            &&& 2 * (n * pow2(149) - 10_000 * value(bits)) <= pow2(149)
            &&& 2 * (10_000 * value(bits) - n * pow2(149)) <= pow2(149)
        }),
{
    let n = ten_thousandths(bits);
    let all = pow2(149);
    lemma_pow2_pos(149);
    if bits == 0 {
        lemma_even_quotient(0, all);
        assert(0 * all == 0);
        assert(n == 0);
        assert(value(bits) == 0);
    } else if exponent(bits) >= 0 {
        let s = significand(bits);
        let k = exponent(bits) as nat;
        let scale = pow2(k);
        lemma_pow2_adds(k, 149);
        assert((exponent(bits) + 149) as nat == k + 149);
        assert(value(bits) == s * (scale * all));
        assert(n == s * scale * 10_000);
        assert(n * all == 10_000 * (s * (scale * all))) by (nonlinear_arith)
            requires
                n == s * scale * 10_000,
        ;
    } else {
        let s = significand(bits);
        let k = (-exponent(bits)) as nat;
        let rest = (exponent(bits) + 149) as nat;
        let unit = pow2(k);
        let r = pow2(rest);
        lemma_pow2_adds(k, rest);
        lemma_pow2_pos(k);
        lemma_pow2_pos(rest);
        lemma_half_unit(s * 10_000, unit);
        assert(n == half_even(s * 10_000, unit));
        assert(k + rest == 149);
        assert(all == unit * r);
        assert(value(bits) == s * r);
        let off = n * unit - s * 10_000;
        assert(2 * off <= unit && -(2 * off) <= unit);
        assert(n * (unit * r) - 10_000 * (s * r) == off * r) by (nonlinear_arith)
            requires
                off == n * unit - s * 10_000,
        ;
        assert(2 * (off * r) <= unit * r && 2 * (-(off * r)) <= unit * r) by (nonlinear_arith)
            requires
                2 * off <= unit,
                -(2 * off) <= unit,
                r > 0,
        ;
    }
}

proof fn lemma_even_quotient(a: nat, b: nat)
    requires
        b > 0,
    ensures
        half_even(a * b, b) == a,
{
    assert(a * b / b == a && a * b % b == 0) by {
        vstd::arithmetic::div_mod::lemma_div_multiples_vanish(a as int, b as int);
        vstd::arithmetic::div_mod::lemma_mod_multiples_basic(a as int, b as int);
        assert(a * b == b * a) by (nonlinear_arith);
    }
}

/// A sum is what its parts add up to, as exactly as a single tells it: the relative
/// error is one in two to the twenty-fourth at most.
pub proof fn sums_add_up(a: int, b: int)
    requires
        is_normal(a),
        is_normal(b),
        exponent(a) <= 100,
        exponent(b) <= 100,
    ensures
        ({
            let exact = value(a) + value(b);
            let sum = value(sum_of(a, b));
            &&& (sum - exact) * 0x100_0000 <= exact
            &&& (exact - sum) * 0x100_0000 <= exact
        }),
{
    let low = single_low();
    let units = value(a) + value(b);
    lemma_sum_normal(a, b);
    lemma_normal_value(a);
    lemma_normal_value(b);
    lemma_rounded(units, 1, low);
    let (m, e) = rounded(units, 1, low);
    assert(low * 1 == low);
    assert(e >= 0);
    let unit = pow2(e as nat);
    lemma_pow2_pos(e as nat);
    assert(1 * unit == unit);
    lemma_half_unit(units, unit);
    let bits = pack_single(m, e - 149);
    assert(sum_of(a, b) == bits);
    assert(is_normal(bits));
    assert(value(bits) == m * unit) by {
        assert((e - 149 + 149) as nat == e as nat);
        if m < 2 * low {
            assert(e - 149 <= 103) by {
                assert(bits == (e - 149 + 149) * 0x80_0000 + m);
            }
            lemma_unpacked(m, e - 149);
        } else {
            assert(e + 1 - 149 <= 103) by {
                assert(bits == e * 0x80_0000 + m);
            }
            assert(bits == pack_single(low, e + 1 - 149));
            lemma_unpacked(low, e + 1 - 149);
            assert((e + 1 - 149 + 149) as nat == e + 1);
            lemma_pow2_unfold((e + 1) as nat);
            assert(low * pow2((e + 1) as nat) == m * unit) by (nonlinear_arith)
                requires
                    pow2((e + 1) as nat) == 2 * unit,
                    m == 2 * low,
            ;
        }
    }
    assert(low * unit <= units);
    assert(0x80_0000 * unit <= units);
}

proof fn lemma_normal_value(a: int)
    requires
        is_normal(a),
    ensures
        value(a) >= single_low(),
{
    let k = (exponent(a) + 149) as nat;
    lemma_pow2_pos(k);
    assert(significand(a) * pow2(k) >= significand(a)) by (nonlinear_arith)
        requires
            pow2(k) >= 1,
    ;
}

/// What a double of one or more, given by its bits, says, in units of two to the minus
/// fifty-second.
pub open spec fn fine_value(bits: u64) -> nat {
    let field = bits as int / 0x10_0000_0000_0000;
    let fraction = bits as int % 0x10_0000_0000_0000;
    ((0x10_0000_0000_0000 + fraction) * pow2((field - 1023) as nat)) as nat
}

/// A number, in these units, is a root of `n`, twice and with three added: it is off by
/// two to the minus thirty-fourth at most.
pub open spec fn is_three_and_twice_the_root(fine: nat, n: nat) -> bool {
    let root = fine - 3 * 0x10_0000_0000_0000;
    let square = 4 * n * 0x100_0000_0000_0000_0000_0000_0000;
    &&& root >= 0x4_0000
    &&& (root - 0x4_0000) * (root - 0x4_0000) <= square
    &&& square <= (root + 0x4_0000) * (root + 0x4_0000)
}

proof fn lemma_square_of_product(a: int, b: int)
    ensures
        (a * b) * (a * b) == (a * a) * (b * b),
{
    vstd::arithmetic::mul::lemma_mul_is_associative(a * b, a, b);
    vstd::arithmetic::mul::lemma_mul_is_commutative(a, b);
    vstd::arithmetic::mul::lemma_mul_is_associative(b, a, a);
    vstd::arithmetic::mul::lemma_mul_is_commutative(b, a * a);
    vstd::arithmetic::mul::lemma_mul_is_associative(a * a, b, b);
}

proof fn lemma_size_parts(n: nat) -> (parts: (nat, int))
    requires
        0 < n <= u32::MAX,
    ensures
        0x10_0000_0000_0000 <= parts.0 <= 0x20_0000_0000_0000,
        0 <= parts.1 <= 20,
        three_plus_twice_root(n) == (parts.1 + 1022) * 0x10_0000_0000_0000 + parts.0,
        is_three_and_twice_the_root(parts.0 * pow2(parts.1 as nat), n),
{
    let low = double_low();
    let k = root_scale(n);
    lemma_root_scale(n);
    lemma_root_scale_bound(n);
    lemma_root_exists(n);
    lemma2_to64();
    lemma2_to64_rest();
    let u = pow2(k);
    lemma_pow2_pos(k);
    let big = n * pow2(2 * k);
    let root = root_significand(n);
    let p = 3 * u + 2 * root;
    assert(k >= 36) by {
        if k < 36 {
            lemma_pow2_adds(36, 36);
            if 2 * k < 72 {
                lemma_pow2_strictly_increases(2 * k, 72);
            }
            lemma_pow2_adds(32, 40);
            assert(big < 0x100_0000_0000_0000_0000_0000_0000) by (nonlinear_arith)
                requires
                    big == n * pow2(2 * k),
                    n <= 0xffff_ffff,
                    pow2(2 * k) < pow2(72),
                    pow2(72) == pow2(32) * pow2(40),
                    pow2(32) == 0x1_0000_0000,
                    pow2(40) == 0x100_0000_0000,
            ;
        }
    }
    let d = (52 - k) as nat;
    let s = pow2(d);
    lemma_pow2_pos(d);
    lemma_pow2_adds(k, d);
    assert(u * s == 0x10_0000_0000_0000);
    if d < 16 {
        lemma_pow2_strictly_increases(d, 16);
    }
    assert(s <= 0x1_0000);
    lemma_rounded(p, 1, low);
    let (m, e) = rounded(p, 1, low);
    assert(low * 1 == low);
    assert(e >= 0);
    let unit = pow2(e as nat);
    lemma_pow2_pos(e as nat);
    assert(1 * unit == unit);
    assert(low * unit <= p < 2 * (low * unit));
    lemma_half_unit(p, unit);
    // How large the sum is bounds how coarse its last place is.
    assert(u <= 0x10_0000_0000_0000) by {
        if k < 52 {
            lemma_pow2_strictly_increases(k, 52);
        }
    }
    assert(p <= 3 * 0x10_0000_0000_0000 + 2 * 0x20_0000_0000_0000);
    assert(unit <= 7);
    assert(e <= 2) by {
        if e > 2 {
            if e > 3 {
                lemma_pow2_strictly_increases(3, e as nat);
            }
            assert(pow2(3) == 8);
        }
    }
    let told = m * unit;
    let off = told - p;
    assert(2 * off <= unit && -(2 * off) <= unit);
    assert(-3 <= off <= 3);
    let up = e + d;
    lemma_pow2_adds(e as nat, d);
    let fine = m * pow2(up as nat);
    assert(fine == told * s) by (nonlinear_arith)
        requires
            fine == m * pow2(up as nat),
            pow2(up as nat) == unit * s,
            told == m * unit,
    ;
    let r = fine - 3 * 0x10_0000_0000_0000;
    assert(r == (2 * root + off) * s) by (nonlinear_arith)
        requires
            r == fine - 3 * 0x10_0000_0000_0000,
            fine == told * s,
            told == 3 * u + 2 * root + off,
            u * s == 0x10_0000_0000_0000,
    ;
    lemma_pow2_adds(k, k);
    lemma_pow2_adds(d, d);
    let square = 4 * n * 0x100_0000_0000_0000_0000_0000_0000;
    lemma_square_of_product(u as int, s as int);
    assert(square == 4 * big * (s * s)) by (nonlinear_arith)
        requires
            square == 4 * n * 0x100_0000_0000_0000_0000_0000_0000,
            big == n * (u * u),
            (u * u) * (s * s) == 0x100_0000_0000_0000_0000_0000_0000,
    ;
    let below = (2 * root - 1) * s;
    let above = (2 * root + 1) * s;
    lemma_square_of_product(2 * root - 1, s as int);
    lemma_square_of_product((2 * root + 1) as int, s as int);
    let ss = s * s;
    let lower = (2 * root - 1) * (2 * root - 1);
    let upper = (2 * root + 1) * (2 * root + 1);
    assert(lower * ss <= 4 * big * ss <= upper * ss) by (nonlinear_arith)
        requires
            lower < 4 * big < upper,
            ss >= 0,
    ;
    assert(below * below <= square <= above * above);
    assert(r - 0x4_0000 <= below && above <= r + 0x4_0000) by (nonlinear_arith)
        requires
            r == (2 * root + off) * s,
            below == (2 * root - 1) * s,
            above == (2 * root + 1) * s,
            -3 <= off <= 3,
            0 < s <= 0x1_0000,
    ;
    assert(r >= 0x4_0000) by (nonlinear_arith)
        requires
            r == (2 * root + off) * s,
            root >= 0x10_0000_0000_0000,
            -3 <= off,
            s >= 1,
    ;
    assert((r - 0x4_0000) * (r - 0x4_0000) <= below * below) by (nonlinear_arith)
        requires
            0 <= r - 0x4_0000 <= below,
    ;
    assert(above * above <= (r + 0x4_0000) * (r + 0x4_0000)) by (nonlinear_arith)
        requires
            0 <= above <= r + 0x4_0000,
    ;
    (m, up)
}

/// The size of the node of a definition is three and twice the root of its lines, or
/// forty, where that is less.
pub proof fn sizes_are_three_and_twice_the_root(n: nat)
    requires
        0 < n <= u32::MAX,
    ensures
        size_for(n) <= 0x4044_0000_0000_0000,
        size_for(n) < 0x4044_0000_0000_0000 ==> is_three_and_twice_the_root(
            fine_value(size_for(n)),
            n,
        ),
        size_for(n) == 0x4044_0000_0000_0000 ==> exists|fine: nat|
            fine >= 40 * 0x10_0000_0000_0000 && #[trigger] is_three_and_twice_the_root(fine, n),
{
    let (m, up) = lemma_size_parts(n);
    let bits = three_plus_twice_root(n);
    let unit = pow2(up as nat);
    lemma2_to64();
    lemma_pow2_pos(up as nat);
    let fine = m * unit;
    if m < 0x20_0000_0000_0000 {
        assert(bits / 0x10_0000_0000_0000 == up + 1023);
        assert(bits % 0x10_0000_0000_0000 == m - 0x10_0000_0000_0000);
        if bits < 0x4044_0000_0000_0000 {
            assert(fine_value(size_for(n)) == fine);
        } else {
            assert(up >= 5);
            if up == 5 {
                assert(m >= 0x14_0000_0000_0000);
                assert(fine == m * 32);
            } else {
                if up > 6 {
                    lemma_pow2_strictly_increases(6, up as nat);
                }
                assert(pow2(6) == 64);
                assert(fine >= 0x10_0000_0000_0000 * 64) by (nonlinear_arith)
                    requires
                        fine == m * unit,
                        m >= 0x10_0000_0000_0000,
                        unit >= 64,
                ;
            }
            assert(fine >= 40 * 0x10_0000_0000_0000);
            assert(is_three_and_twice_the_root(fine, n));
        }
    } else {
        assert(bits == (up + 1024) * 0x10_0000_0000_0000);
        assert(bits / 0x10_0000_0000_0000 == up + 1024);
        assert(bits % 0x10_0000_0000_0000 == 0);
        lemma_pow2_unfold((up + 1) as nat);
        assert(0x10_0000_0000_0000 * pow2((up + 1) as nat) == fine) by (nonlinear_arith)
            requires
                fine == m * unit,
                m == 0x20_0000_0000_0000,
                pow2((up + 1) as nat) == 2 * unit,
        ;
        if bits < 0x4044_0000_0000_0000 {
            assert(fine_value(size_for(n)) == fine);
        } else {
            assert(up + 1 >= 6);
            if up + 1 > 6 {
                lemma_pow2_strictly_increases(6, (up + 1) as nat);
            }
            assert(pow2(6) == 64);
            assert(fine >= 40 * 0x10_0000_0000_0000);
            assert(is_three_and_twice_the_root(fine, n));
        }
    }
}

/// Asking for the size of a definition answers by the number of its lines.
pub proof fn sizes_are_answered_by_lines(chunk: &StoredChunk, size: Double, lines: nat)
    requires
        call_ensures(definition_size, (chunk,), size),
        lines == if chunk@.end_line < chunk@.start_line {
            1
        } else {
            chunk@.end_line - chunk@.start_line + 1
        },
        lines <= u32::MAX,
    ensures
        size.bits <= 0x4044_0000_0000_0000,
        size.bits < 0x4044_0000_0000_0000 ==> is_three_and_twice_the_root(
            fine_value(size.bits),
            lines,
        ),
        size.bits == 0x4044_0000_0000_0000 ==> exists|fine: nat|
            fine >= 40 * 0x10_0000_0000_0000 && #[trigger] is_three_and_twice_the_root(fine, lines),
{
    sizes_are_three_and_twice_the_root(lines);
}

/// A definition can be counted unless it spans all lines that there are numbers for.
pub proof fn all_but_the_longest_can_be_counted(chunk: StoredChunkView)
    ensures
        countable(chunk) <==> !(chunk.start_line == 0 && chunk.end_line == u32::MAX),
{
}

/// A negative number is written as a minus and the number without its sign, and what is
/// too large or no number at all is written as that.
pub proof fn signs_are_written_first(
    number: Single,
    opposite: Single,
    text: String,
    other: String,
)
    requires
        call_ensures(Single::four_places, (number,), text),
        call_ensures(Single::four_places, (opposite,), other),
        opposite.bits == number.bits + 0x8000_0000,
    ensures
        number.bits <= 0x7f80_0000 ==> other@ == "-"@ + text@,
        number.bits == 0x7f80_0000 ==> text@ == "inf"@,
        number.bits > 0x7f80_0000 ==> text@ == "NaN"@ && other@ == "NaN"@,
{
}

} // verus!
