//! Token counts in a short form.
use crate::text;
use vstd::arithmetic::power2::*;
use vstd::prelude::*;
use vstd::string::*;

verus! {

/// The integer nearest to `n / d`, and of two equally near ones the even one.
pub open spec fn nearest_even(n: nat, d: nat) -> nat {
    let q = n / d;
    let r = n % d;
    if 2 * r < d || (2 * r == d && q % 2 == 0) {
        q
    } else {
        q + 1
    }
}

/// The smallest power of two that scales `n / d` to less than 2^53, by which a
/// double-precision number of that size is spaced.
pub open spec fn spacing(n: nat, d: nat, fuel: nat) -> nat
    decreases fuel,
{
    if fuel == 0 || n < 0x20_0000_0000_0000 * d {
        1
    } else {
        2 * spacing(n, 2 * d, (fuel - 1) as nat)
    }
}

/// How often `n / d` can be doubled below 2^53, as a power of two.
pub open spec fn headroom(n: nat, d: nat, fuel: nat) -> nat
    decreases fuel,
{
    if fuel == 0 || 2 * n >= 0x20_0000_0000_0000 * d {
        1
    } else {
        2 * headroom(2 * n, d, (fuel - 1) as nat)
    }
}

/// `tokens` rounded to double precision.
pub open spec fn rounded_tokens(tokens: nat) -> nat {
    let unit = spacing(tokens, 1, 11);
    nearest_even(tokens, unit) * unit
}

/// `tokens / 1000` in double precision, as a fraction.
pub open spec fn thousands(tokens: nat) -> (nat, nat) {
    let t = rounded_tokens(tokens);
    let unit = spacing(t, 1000, 10);
    if unit > 1 {
        (nearest_even(t, 1000 * unit) * unit, 1)
    } else {
        let scale = headroom(t, 1000, 53);
        (nearest_even(t * scale, 1000), scale)
    }
}

/// `tokens / 1000` in double precision, rounded to tenths.
pub open spec fn tenths(tokens: nat) -> nat {
    let (n, d) = thousands(tokens);
    nearest_even(10 * n, d)
}

/// Token counts from a thousand on in thousands with one decimal.
pub open spec fn compact(tokens: nat) -> Seq<char> {
    if tokens < 1000 {
        text::decimal(tokens)
    } else {
        text::decimal(tenths(tokens) / 10) + "."@ + text::decimal(tenths(tokens) % 10) + "k"@
    }
}

fn nearest_even_of(n: u128, d: u128) -> (r: u128)
    requires
        0 < d < 0x8000_0000_0000_0000_0000,
    ensures
        r == nearest_even(n as nat, d as nat),
{
    let q: u128 = n / d;
    let r: u128 = n % d;
    if 2 * r < d || (2 * r == d && q % 2 == 0) {
        q
    } else {
        proof {
            // The quotient leaves room for one more.
            assert(q + 1 <= u128::MAX) by (nonlinear_arith)
                requires
                    q == n / d,
                    r == n % d,
                    2 * r >= d,
                    d > 0,
                    n <= u128::MAX,
            {
                assert(n == d * q + r);
                assert(d * q >= q);
                assert(r >= 1);
            }
        }
        q + 1
    }
}

fn spacing_of(n: u128, d: u128, fuel: u32) -> (r: u128)
    requires
        n < 0x1_0000_0000_0000_0000_0000,
        0 < d,
        d * pow2(fuel as nat) < 0x10_0000,
    ensures
        r == spacing(n as nat, d as nat, fuel as nat),
        1 <= r <= pow2(fuel as nat),
    decreases fuel,
{
    proof {
        lemma2_to64();
        lemma_pow2_pos(fuel as nat);
        assert(d < 0x10_0000) by (nonlinear_arith)
            requires
                d * pow2(fuel as nat) < 0x10_0000,
                pow2(fuel as nat) >= 1,
        ;
    }
    if fuel == 0 || n < 0x20_0000_0000_0000 * d {
        1
    } else {
        proof {
            lemma_pow2_unfold(fuel as nat);
            assert((2 * d) * pow2((fuel - 1) as nat) == d * pow2(fuel as nat)) by (nonlinear_arith)
                requires
                    pow2(fuel as nat) == 2 * pow2((fuel - 1) as nat),
            ;
            assert(pow2((fuel - 1) as nat) < 0x10_0000) by (nonlinear_arith)
                requires
                    (2 * d) * pow2((fuel - 1) as nat) < 0x10_0000,
                    d >= 1,
            ;
        }
        2 * spacing_of(n, 2 * d, fuel - 1)
    }
}

fn headroom_of(n: u128, d: u128, fuel: u32) -> (r: u128)
    requires
        n < 0x1_0000_0000_0000_0000_0000,
        0 < d <= 1000,
        fuel <= 53,
    ensures
        r == headroom(n as nat, d as nat, fuel as nat),
        1 <= r <= pow2(fuel as nat),
        n * r < 0x1_0000_0000_0000_0000_0000,
    decreases fuel,
{
    proof {
        lemma2_to64();
        lemma_pow2_pos(fuel as nat);
    }
    if fuel == 0 || 2 * n >= 0x20_0000_0000_0000 * d {
        1
    } else {
        proof {
            lemma_pow2_unfold(fuel as nat);
            lemma_pow2_strictly_increases((fuel - 1) as nat, 64);
        }
        let r: u128 = headroom_of(2 * n, d, fuel - 1);
        assert(n * (2 * r) == (2 * n) * r) by (nonlinear_arith);
        2 * r
    }
}

proof fn lemma_nearest_bound(n: nat, d: nat)
    requires
        d > 0,
    ensures
        nearest_even(n, d) <= n / d + 1,
        nearest_even(n, d) * d <= n + d,
{
    assert(n == d * (n / d) + n % d) by (nonlinear_arith)
        requires
            d > 0,
    ;
    assert((n / d) * d <= n) by (nonlinear_arith)
        requires
            n == d * (n / d) + n % d,
    ;
    assert(nearest_even(n, d) * d <= n + d) by (nonlinear_arith)
        requires
            (n / d) * d <= n,
            nearest_even(n, d) <= n / d + 1,
    ;
}

/// A token count in the form that citations show it in: exact below a
/// thousand, and from there on in thousands, divided in double precision and
/// shown with one decimal.
pub fn compact_number(tokens: usize) -> (r: String)
    ensures
        r@ == compact(tokens as nat),
{
    if tokens < 1000 {
        return text::decimal_of(tokens as u64);
    }
    let given: u128 = tokens as u128;
    proof {
        lemma2_to64();
    }
    let unit0: u128 = spacing_of(given, 1, 11);
    let m0: u128 = nearest_even_of(given, unit0);
    proof {
        lemma_nearest_bound(given as nat, unit0 as nat);
    }
    let t: u128 = m0 * unit0;
    assert(t <= 0x1_0000_0000_0000_0800);
    let unit: u128 = spacing_of(t, 1000, 10);
    let ten: u128;
    if unit > 1 {
        let m: u128 = nearest_even_of(t, 1000 * unit);
        proof {
            lemma_nearest_bound(t as nat, (1000 * unit) as nat);
            assert(1000 * (m * unit) <= t + 1000 * unit) by (nonlinear_arith)
                requires
                    m * (1000 * unit) <= t + 1000 * unit,
            ;
        }
        let n: u128 = m * unit;
        ten = nearest_even_of(10 * n, 1);
    } else {
        let scale: u128 = headroom_of(t, 1000, 53);
        let n: u128 = nearest_even_of(t * scale, 1000);
        proof {
            lemma_pow2_strictly_increases(53, 64);
            lemma_nearest_bound((t * scale) as nat, 1000);
        }
        ten = nearest_even_of(10 * n, scale);
        proof {
            lemma_nearest_bound((10 * n) as nat, scale as nat);
            assert(ten * 100 <= t + 1100) by (nonlinear_arith)
                requires
                    ten * scale <= 10 * n + scale,
                    n * 1000 <= t * scale + 1000,
                    scale >= 1,
            ;
        }
    }
    assert(ten == tenths(tokens as nat));
    let mut r = text::decimal_of((ten / 10) as u64);
    r.append(".");
    let last = text::decimal_of((ten % 10) as u64);
    r.append(last.as_str());
    r.append("k");
    r
}

} // verus!
