use vstd::prelude::*;

verus! {

// Numbers are stored as the bits of IEEE 754 doubles. These functions give
// the bits of a whole number and the whole number a double's bits stand for,
// as Rust's `as` casts between `usize` and `f64` do.
pub open spec fn two_pow(k: nat) -> nat
    decreases k,
{
    if k == 0 {
        1
    } else {
        2 * two_pow((k - 1) as nat)
    }
}

/// 2^52: the implicit leading bit of a normal double's significand.
pub open spec fn hidden_bit() -> nat {
    0x10_0000_0000_0000
}

/// How many doublings (at most `fuel`) bring `n` to at least 2^52.
pub open spec fn shifts(n: nat, fuel: nat) -> nat
    decreases fuel,
{
    if n >= hidden_bit() || fuel == 0 {
        0
    } else {
        1 + shifts(2 * n, (fuel - 1) as nat)
    }
}

/// `n` doubled until it is at least 2^52 (at most `fuel` times).
pub open spec fn scaled(n: nat, fuel: nat) -> nat
    decreases fuel,
{
    if n >= hidden_bit() || fuel == 0 {
        n
    } else {
        scaled(2 * n, (fuel - 1) as nat)
    }
}

/// The bits of the double equal to a whole number below 2^53: exponent and
/// significand of the number brought to 53 bits.
pub open spec fn whole_bits(n: nat) -> u64 {
    if n == 0 {
        0
    } else {
        ((1075 - shifts(n, 53)) * hidden_bit() + (scaled(n, 53) - hidden_bit())) as u64
    }
}

/// The whole number the significand `m` stands for at exponent `e`,
/// fractions dropped.
pub open spec fn whole_value(m: nat, e: nat) -> nat {
    if e >= 52 {
        m * two_pow((e - 52) as nat)
    } else {
        m / two_pow((52 - e) as nat)
    }
}

/// The `usize` a double's bits convert to with `as`: fractions dropped,
/// negative numbers and NaN give 0, numbers too large give `usize::MAX`.
pub open spec fn bits_usize(bits: u64) -> usize {
    let exp = ((bits as nat) / hidden_bit()) % 2048;
    let frac = (bits as nat) % hidden_bit();
    let neg = bits >= 0x8000_0000_0000_0000;
    if exp == 2047 {
        if frac == 0 && !neg {
            usize::MAX
        } else {
            0
        }
    } else if neg || exp < 1023 {
        0
    } else {
        let v = whole_value(frac + hidden_bit(), (exp - 1023) as nat);
        if v > usize::MAX {
            usize::MAX
        } else {
            v as usize
        }
    }
}

proof fn lemma_two_pow_pos(k: nat)
    ensures
        two_pow(k) >= 1,
    decreases k,
{
    if k > 0 {
        lemma_two_pow_pos((k - 1) as nat);
    }
}

/// The bits of the double equal to `n` (`n as f64`), for `n` below 2^53.
pub fn usize_to_number(n: usize) -> (bits: u64)
    requires
        n < 0x20_0000_0000_0000,
    ensures
        bits == whole_bits(n as nat),
{
    if n == 0 {
        return 0;
    }
    let mut m: u64 = n as u64;
    let mut k: u64 = 0;
    proof {
        assert(two_pow(0) == 1);
    }
    while m < 0x10_0000_0000_0000
        invariant
            1 <= n < 0x20_0000_0000_0000,
            m as nat == n as nat * two_pow(k as nat),
            m as nat >= two_pow(k as nat),
            1 <= m < 0x20_0000_0000_0000,
            k <= 52,
            shifts(n as nat, 53) == k + shifts(m as nat, (53 - k) as nat),
            scaled(n as nat, 53) == scaled(m as nat, (53 - k) as nat),
        decreases 52 - k,
    {
        proof {
            if k == 52 {
                lemma_two_pow_52();
            }
            assert(two_pow((k + 1) as nat) == 2 * two_pow(k as nat));
            assert(m as nat * 2 == n as nat * two_pow((k + 1) as nat)) by (nonlinear_arith)
                requires
                    m as nat == n as nat * two_pow(k as nat),
                    two_pow((k + 1) as nat) == 2 * two_pow(k as nat),
            ;
        }
        m = m * 2;
        k = k + 1;
    }
    (1075 - k) * 0x10_0000_0000_0000 + (m - 0x10_0000_0000_0000)
}

/// The `usize` a double's bits convert to (`f as usize`).
pub fn number_to_usize(bits: u64) -> (n: usize)
    ensures
        n == bits_usize(bits),
{
    let exp = (bits / 0x10_0000_0000_0000) % 2048;
    let frac = bits % 0x10_0000_0000_0000;
    let neg = bits >= 0x8000_0000_0000_0000;
    if exp == 2047 {
        if frac == 0 && !neg {
            return usize::MAX;
        } else {
            return 0;
        }
    }
    if neg || exp < 1023 {
        return 0;
    }
    let e = exp - 1023;
    let m = frac + 0x10_0000_0000_0000;
    proof {
        assert(exp as nat == ((bits as nat) / hidden_bit()) % 2048);
        assert(frac as nat == (bits as nat) % hidden_bit());
    }
    if e >= 52 {
        if m > usize::MAX as u64 {
            proof {
                lemma_two_pow_pos((e - 52) as nat);
                assert(m as nat * two_pow((e - 52) as nat) >= m as nat) by (nonlinear_arith)
                    requires
                        two_pow((e - 52) as nat) >= 1,
                ;
            }
            return usize::MAX;
        }
        let mut v: u64 = m;
        let mut j: u64 = 52;
        proof {
            assert(two_pow(0) == 1);
            assert(two_pow((j - 52) as nat) == 1);
            assert(m as nat * two_pow((j - 52) as nat) == m as nat);
        }
        while j < e
            invariant
                52 <= j <= e,
                e < 1024,
                exp as nat == ((bits as nat) / hidden_bit()) % 2048,
                frac as nat == (bits as nat) % hidden_bit(),
                exp != 2047,
                bits < 0x8000_0000_0000_0000,
                exp >= 1023,
                e == exp - 1023,
                m == frac + 0x10_0000_0000_0000,
                v as nat == m as nat * two_pow((j - 52) as nat),
                v <= usize::MAX,
                m >= 1,
            decreases e - j,
        {
            if v > usize::MAX as u64 / 2 {
                proof {
                    lemma_pow_grows((j - 52) as nat, (e - 52) as nat);
                    assert(m as nat * two_pow((e - 52) as nat) >= m as nat * (2 * two_pow((j - 52) as nat))) by (nonlinear_arith)
                        requires
                            two_pow((e - 52) as nat) >= 2 * two_pow((j - 52) as nat),
                    ;
                    assert(m as nat * (2 * two_pow((j - 52) as nat)) == 2 * (v as nat)) by (nonlinear_arith)
                        requires
                            v as nat == m as nat * two_pow((j - 52) as nat),
                    ;
                    assert(whole_value(m as nat, e as nat) > usize::MAX);
                }
                return usize::MAX;
            }
            proof {
                assert(two_pow((j + 1 - 52) as nat) == 2 * two_pow((j - 52) as nat));
                assert(v as nat * 2 == m as nat * two_pow((j + 1 - 52) as nat)) by (nonlinear_arith)
                    requires
                        v as nat == m as nat * two_pow((j - 52) as nat),
                        two_pow((j + 1 - 52) as nat) == 2 * two_pow((j - 52) as nat),
                ;
            }
            v = v * 2;
            j = j + 1;
        }
        v as usize
    } else {
        let mut v: u64 = m;
        let mut j: u64 = e;
        proof {
            assert(two_pow(0) == 1);
            assert(two_pow((j - e) as nat) == 1);
            assert(m as nat / two_pow((j - e) as nat) == m as nat);
        }
        while j < 52
            invariant
                e <= j <= 52,
                v as nat == m as nat / two_pow((j - e) as nat),
                v <= m,
            decreases 52 - j,
        {
            proof {
                lemma_two_pow_pos((j - e) as nat);
                assert(two_pow((j + 1 - e) as nat) == 2 * two_pow((j - e) as nat));
                vstd::arithmetic::div_mod::lemma_div_denominator(m as int, two_pow((j - e) as nat) as int, 2);
            }
            v = v / 2;
            j = j + 1;
        }
        if v > usize::MAX as u64 {
            usize::MAX
        } else {
            v as usize
        }
    }
}

proof fn lemma_two_pow_52()
    ensures
        two_pow(52) == 0x10_0000_0000_0000,
{
    reveal_with_fuel(two_pow, 53);
}

proof fn lemma_pow_grows(a: nat, b: nat)
    requires
        a < b,
    ensures
        two_pow(b) >= 2 * two_pow(a),
    decreases b,
{
    lemma_two_pow_pos(a);
    if b > a + 1 {
        lemma_pow_grows(a, (b - 1) as nat);
    }
}

/// Doubling a number below 2^53 until it reaches 2^52 gives the number
/// times a power of two, in [2^52, 2^53).
proof fn lemma_scaled(n: nat, fuel: nat)
    requires
        1 <= n < 0x20_0000_0000_0000,
        n * two_pow(fuel) >= hidden_bit(),
    ensures
        scaled(n, fuel) == n * two_pow(shifts(n, fuel)),
        hidden_bit() <= scaled(n, fuel) < 0x20_0000_0000_0000,
        shifts(n, fuel) <= fuel,
    decreases fuel,
{
    if n >= hidden_bit() {
        assert(two_pow(0) == 1);
        assert(n * two_pow(0) == n);
    } else {
        if fuel == 0 {
            assert(two_pow(0) == 1);
            assert(n * two_pow(0) == n) by (nonlinear_arith)
                requires
                    two_pow(0) == 1,
            ;
        } else {
            assert(two_pow(fuel) == 2 * two_pow((fuel - 1) as nat));
            assert(2 * n * two_pow((fuel - 1) as nat) == n * two_pow(fuel)) by (nonlinear_arith)
                requires
                    two_pow(fuel) == 2 * two_pow((fuel - 1) as nat),
            ;
            lemma_scaled(2 * n, (fuel - 1) as nat);
            let k = shifts(2 * n, (fuel - 1) as nat);
            assert(two_pow(k + 1) == 2 * two_pow(k));
            assert(2 * n * two_pow(k) == n * two_pow(k + 1)) by (nonlinear_arith)
                requires
                    two_pow(k + 1) == 2 * two_pow(k),
            ;
        }
    }
}

/// A whole number below 2^53 that fits a `usize` converts to a double and
/// back to itself.
pub proof fn lemma_number_roundtrip(n: nat)
    requires
        n < 0x20_0000_0000_0000,
        n <= usize::MAX,
    ensures
        bits_usize(whole_bits(n)) == n,
{
    if n > 0 {
        lemma_two_pow_52();
        assert(two_pow(53) == 2 * two_pow(52));
        assert(n * two_pow(53) >= hidden_bit()) by (nonlinear_arith)
            requires
                n >= 1,
                two_pow(53) == 0x20_0000_0000_0000,
        ;
        lemma_scaled(n, 53);
        let k = shifts(n, 53);
        let m = scaled(n, 53);
        assert(k <= 52) by {
            if k == 53 {
                lemma_two_pow_pos(53);
                assert(n * two_pow(53) >= 0x20_0000_0000_0000) by (nonlinear_arith)
                    requires
                        n >= 1,
                        two_pow(53) == 0x20_0000_0000_0000,
                ;
            }
        }
        let bits = whole_bits(n);
        assert(bits as nat == (1075 - k) * hidden_bit() + (m - hidden_bit()));
        vstd::arithmetic::div_mod::lemma_fundamental_div_mod_converse(
            bits as int,
            hidden_bit() as int,
            (1075 - k) as int,
            (m - hidden_bit()) as int,
        );
        assert(((bits as nat) / hidden_bit()) % 2048 == 1075 - k);
        assert(bits < 0x8000_0000_0000_0000);
        let e = (52 - k) as nat;
        if k == 0 {
            assert(two_pow(0) == 1);
            assert(whole_value(m, 52) == m);
        } else {
            lemma_two_pow_pos(k);
            assert((52 - e) as nat == k);
            vstd::arithmetic::div_mod::lemma_div_multiples_vanish(n as int, two_pow(k) as int);
            assert(m / two_pow(k) == n);
        }
    }
}

} // verus!
