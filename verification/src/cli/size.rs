//! Sizes in human-readable form.

use crate::text;
use crate::text::decimal;
use vstd::prelude::*;
use vstd::string::StringExecFns;

verus! {

/// The quotient, rounded to the nearest integer, and to the even one where two
/// are equally near.
pub open spec fn rounded(n: int, d: int) -> int {
    let q = n / d;
    let r = n % d;
    if 2 * r < d || (2 * r == d && q % 2 == 0) {
        q
    } else {
        q + 1
    }
}

/// The distance between two floating-point numbers of double precision at `n`,
/// if it is at least `step`. They have 53 significant bits.
pub open spec fn double_step(n: int, step: int) -> int
    decreases n - step,
{
    if step <= 0 || n < step * 0x20_0000_0000_0000 {
        step
    } else {
        double_step(n, 2 * step)
    }
}

/// The floating-point number of double precision that is nearest to `n`.
pub open spec fn nearest_double(n: int) -> int {
    let step = double_step(n, 1);
    rounded(n, step) * step
}

/// The size in thousandths of a MiB.
pub open spec fn milli_mib(bytes: int) -> int {
    rounded(nearest_double(bytes) * 1000, 0x10_0000)
}

/// The text for a size, in MiB with three digits after the point.
pub open spec fn size_text(bytes: u64) -> Seq<char> {
    let n = milli_mib(bytes as int);
    text::decimal_of((n / 1000) as nat) + "."@ + seq![
        text::digit_of((n / 100 % 10) as nat),
        text::digit_of((n / 10 % 10) as nat),
        text::digit_of((n % 10) as nat),
    ] + "MiB"@
}

/// Divides, rounding to the nearest integer.
fn round(n: u128, d: u128) -> (r: u128)
    requires
        d > 0,
        n + d <= u128::MAX,
        d <= 0x1_0000_0000_0000_0000,
    ensures
        r == rounded(n as int, d as int),
        r * d <= n + d,
{
    let q = n / d;
    let r = n % d;
    assert(n == q * d + r) by (nonlinear_arith)
        requires
            d > 0,
            q == n / d,
            r == n % d,
    ;
    if 2 * r < d || (2 * r == d && q % 2 == 0) {
        q
    } else {
        assert((q + 1) * d == q * d + d) by (nonlinear_arith);
        assert(q + 1 <= u128::MAX) by (nonlinear_arith)
            requires
                q * d + d <= u128::MAX,
                d > 0,
        ;
        q + 1
    }
}

/// The distance between two floating-point numbers of double precision.
fn step_at(bytes: u64) -> (r: u64)
    ensures
        r == double_step(bytes as int, 1),
        1 <= r <= 4096,
{
    let mut step: u64 = 1;
    while (bytes as u128) >= (step as u128) * 0x20_0000_0000_0000
        invariant
            1 <= step <= 4096,
            double_step(bytes as int, step as int) == double_step(bytes as int, 1),
        decreases 4096 - step,
    {
        assert(step <= 2047);
        step = 2 * step;
    }
    step
}

/// Finds the nearest floating-point number of double precision.
fn nearest(bytes: u64) -> (r: u128)
    ensures
        r == nearest_double(bytes as int),
        r <= 0x1_0000_0000_0000_1000,
{
    let step = step_at(bytes) as u128;
    let near = round(bytes as u128, step);
    assert(near * step <= bytes + step);
    near * step
}

/// Computes the size in thousandths of a MiB.
fn in_milli_mib(bytes: u64) -> (r: u64)
    ensures
        r == milli_mib(bytes as int),
{
    let near = nearest(bytes);
    let n = round(near * 1000, 0x10_0000);
    assert(n * 0x10_0000 <= near * 1000 + 0x10_0000);
    n as u64
}

/// Formats file sizes to human-readable format.
pub fn format_size(bytes: u64) -> (r: String)
    ensures
        r@ == size_text(bytes),
{
    let n = in_milli_mib(bytes);
    let mut r = decimal(n / 1000);
    r.append(".");
    r.append(decimal(n / 100 % 10).as_str());
    r.append(decimal(n / 10 % 10).as_str());
    r.append(decimal(n % 10).as_str());
    r.append("MiB");
    assert(r@ =~= size_text(bytes));
    r
}

/// A size is given in MiB with three digits after the point, and what is given
/// is as near to it as three digits allow.
pub proof fn law_size_is_rounded(bytes: u64) -> (whole: Seq<char>)
    requires
        bytes < 0x20_0000_0000_0000,
    ensures
        size_text(bytes).len() == whole.len() + 7,
        whole.len() > 0,
        whole.is_prefix_of(size_text(bytes)),
        size_text(bytes)[whole.len() as int] == '.',
        size_text(bytes).skip(whole.len() as int + 4) == seq!['M', 'i', 'B'],
        forall|i: int|
            0 <= i < whole.len() + 4 && i != whole.len() ==> '0' <= #[trigger] size_text(bytes)[i]
                <= '9',
        ({
            let fraction = size_text(bytes).subrange(whole.len() as int + 1, whole.len() as int + 4);
            let shown = 1000 * text::value_of_digits(whole) + text::value_of_digits(fraction);
            -0x8_0000 <= 0x10_0000 * shown - 1000 * bytes <= 0x8_0000
        }),
{
    let n = milli_mib(bytes as int);
    let w = text::decimal_of((n / 1000) as nat);
    let s = size_text(bytes);
    let d2 = text::digit_of((n / 100 % 10) as nat);
    let d1 = text::digit_of((n / 10 % 10) as nat);
    let d0 = text::digit_of((n % 10) as nat);
    let f = s.subrange(w.len() as int + 1, w.len() as int + 4);
    reveal_strlit(".");
    reveal_strlit("MiB");
    lemma_milli_mib(bytes);
    lemma_three_digits(n);
    text::law_decimal_stands_for_number((n / 1000) as nat);
    assert(s.take(w.len() as int) =~= w);
    assert(s.skip(w.len() as int + 4) =~= seq!['M', 'i', 'B']);
    assert(f =~= seq![d2, d1, d0]);
    assert forall|i: int| 0 <= i < w.len() + 4 && i != w.len() implies '0' <= #[trigger] s[i]
        <= '9' by {
        if i < w.len() {
            assert(s[i] == w[i]);
        } else {
            assert(s[i] == f[i - w.len() - 1]);
        }
    }
    w
}

/// The size in thousandths of a MiB is as near as an integer can be.
proof fn lemma_milli_mib(bytes: u64)
    requires
        bytes < 0x20_0000_0000_0000,
    ensures
        milli_mib(bytes as int) >= 0,
        -0x8_0000 <= 0x10_0000 * milli_mib(bytes as int) - 1000 * bytes <= 0x8_0000,
{
    assert(double_step(bytes as int, 1) == 1);
    assert(rounded(bytes as int, 1) == bytes);
    assert(nearest_double(bytes as int) == bytes);
}

/// Three digits, and what they stand for.
proof fn lemma_three_digits(n: int)
    requires
        n >= 0,
    ensures
        ({
            let d2 = text::digit_of((n / 100 % 10) as nat);
            let d1 = text::digit_of((n / 10 % 10) as nat);
            let d0 = text::digit_of((n % 10) as nat);
            &&& '0' <= d2 <= '9' && '0' <= d1 <= '9' && '0' <= d0 <= '9'
            &&& 1000 * (n / 1000) + text::value_of_digits(seq![d2, d1, d0]) == n
        }),
{
    let a = n / 1000;
    let b = n / 100;
    let c = n / 10;
    assert(b / 10 == a && c / 10 == b);
    lemma_value_of_three((b % 10) as nat, (c % 10) as nat, (n % 10) as nat);
}

/// What three digits stand for.
proof fn lemma_value_of_three(a: nat, b: nat, c: nat)
    requires
        a < 10,
        b < 10,
        c < 10,
    ensures
        ({
            let s = seq![text::digit_of(a), text::digit_of(b), text::digit_of(c)];
            &&& forall|i: int| 0 <= i < 3 ==> '0' <= #[trigger] s[i] <= '9'
            &&& '0' <= text::digit_of(a) <= '9' && '0' <= text::digit_of(b) <= '9' && '0'
                <= text::digit_of(c) <= '9'
            &&& text::value_of_digits(s) == 100 * a + 10 * b + c
        }),
{
    let x = text::digit_of(a);
    let y = text::digit_of(b);
    let z = text::digit_of(c);
    let none = Seq::<char>::empty();
    assert(seq![x].drop_last() =~= none);
    assert(text::value_of_digits(none) == 0);
    assert(text::value_of_digits(seq![x]) == a);
    assert(seq![x, y].drop_last() =~= seq![x]);
    assert(text::value_of_digits(seq![x, y]) == 10 * a + b);
    assert(seq![x, y, z].drop_last() =~= seq![x, y]);
}

/// The text for a size has no percent sign.
pub proof fn lemma_size_is_plain(bytes: u64)
    ensures
        !size_text(bytes).contains('%'),
{
    let n = milli_mib(bytes as int);
    let w = text::decimal_of((n / 1000) as nat);
    let s = size_text(bytes);
    reveal_strlit(".");
    reveal_strlit("MiB");
    text::law_decimal_stands_for_number((n / 1000) as nat);
    assert forall|i: int| 0 <= i < s.len() implies s[i] != '%' by {
        if i < w.len() {
            assert(s[i] == w[i]);
        }
    }
}

} // verus!
