//! Arithmetic helpers of the code generator.
use crate::compiler::codegen::fraction::{ratio_checked_div, ratio_checked_mul, Fraction};
use crate::compiler::codegen::{Length, Mpb, PPQ};
use vstd::prelude::*;

verus! {

/// The greatest common divisor, by Euclid's algorithm on the larger and the
/// smaller number.
pub open spec fn spec_gcd(a: nat, b: nat) -> nat
    decreases (if a < b {
        a
    } else {
        b
    }),
{
    let max = if a < b {
        b
    } else {
        a
    };
    let min = if a < b {
        a
    } else {
        b
    };
    if min == 0 {
        max
    } else {
        spec_gcd(min, max % min)
    }
}

/// The greatest common divisor of two numbers, not both zero, is positive,
/// divides both, and does not depend on their order.
pub proof fn law_gcd_divides(a: nat, b: nat)
    requires
        a > 0 || b > 0,
    ensures
        spec_gcd(a, b) > 0,
        a % spec_gcd(a, b) == 0,
        b % spec_gcd(a, b) == 0,
        spec_gcd(a, b) == spec_gcd(b, a),
    decreases (if a < b {
        a
    } else {
        b
    }),
{
    let max = if a < b {
        b
    } else {
        a
    };
    let min = if a < b {
        a
    } else {
        b
    };
    if min == 0 {
        assert(max % max == 0) by (nonlinear_arith)
            requires
                max > 0,
        ;
    } else {
        let r = max % min;
        assert(r < min) by (nonlinear_arith)
            requires
                min > 0,
                r == max % min,
        ;
        law_gcd_divides(min, r);
        let g = spec_gcd(min, r);
        assert(spec_gcd(a, b) == g);
        vstd::arithmetic::div_mod::lemma_fundamental_div_mod(min as int, g as int);
        vstd::arithmetic::div_mod::lemma_fundamental_div_mod(r as int, g as int);
        vstd::arithmetic::div_mod::lemma_fundamental_div_mod(max as int, min as int);
        let k1 = min as int / g as int;
        let k2 = r as int / g as int;
        let q = max as int / min as int;
        assert(max == g * (k1 * q + k2)) by (nonlinear_arith)
            requires
                min == g * k1,
                r == g * k2,
                max == min * q + r,
        ;
        vstd::arithmetic::div_mod::lemma_mod_multiples_basic(k1 * q + k2, g as int);
        assert(g * (k1 * q + k2) == (k1 * q + k2) * g) by (nonlinear_arith);
    }
}

/// Every common divisor of two numbers divides their greatest common divisor.
pub proof fn law_common_divisor_divides_gcd(a: nat, b: nat, d: nat)
    requires
        d > 0,
        a % d == 0,
        b % d == 0,
    ensures
        spec_gcd(a, b) % d == 0,
    decreases (if a < b {
        a
    } else {
        b
    }),
{
    let max = if a < b {
        b
    } else {
        a
    };
    let min = if a < b {
        a
    } else {
        b
    };
    if min > 0 {
        let r = max % min;
        assert(r < min) by (nonlinear_arith)
            requires
                min > 0,
                r == max % min,
        ;
        vstd::arithmetic::div_mod::lemma_fundamental_div_mod(max as int, min as int);
        vstd::arithmetic::div_mod::lemma_fundamental_div_mod(max as int, d as int);
        vstd::arithmetic::div_mod::lemma_fundamental_div_mod(min as int, d as int);
        let q = max as int / min as int;
        let k1 = max as int / d as int;
        let k2 = min as int / d as int;
        assert(r == d * (k1 - k2 * q)) by (nonlinear_arith)
            requires
                max == d * k1,
                min == d * k2,
                max == min * q + r,
        ;
        assert(k1 - k2 * q >= 0) by (nonlinear_arith)
            requires
                r == d * (k1 - k2 * q),
                d > 0,
                r >= 0,
        ;
        vstd::arithmetic::div_mod::lemma_mod_multiples_basic(k1 - k2 * q, d as int);
        assert(d * (k1 - k2 * q) == (k1 - k2 * q) * d) by (nonlinear_arith);
        law_common_divisor_divides_gcd(min, r, d);
    }
}

/// `d` divides `n`.
pub open spec fn divides(d: nat, n: nat) -> bool {
    exists|k: nat| #[trigger] (d * k) == n
}

/// The greatest common divisor of `a` and `b`: 0 only when both are 0.
pub fn gcd(a: u64, b: u64) -> (r: u64)
    ensures
        r == spec_gcd(a as nat, b as nat),
    decreases (if a < b {
        a
    } else {
        b
    }),
{
    let max = if a < b {
        b
    } else {
        a
    };
    let min = if a < b {
        a
    } else {
        b
    };
    if min == 0 {
        max
    } else {
        gcd(min, max % min)
    }
}

proof fn lemma_gcd_step(a: nat, b: nat)
    requires
        b > 0,
    ensures
        spec_gcd(a, b) == spec_gcd(b, a % b),
{
    if a < b {
        assert(a % b == a) by (nonlinear_arith)
            requires
                a < b,
        ;
        assert(spec_gcd(b, a % b) == spec_gcd(b, a));
    } else if a == b {
        assert(a % b == 0) by (nonlinear_arith)
            requires
                a == b,
                b > 0,
        ;
        reveal_with_fuel(spec_gcd, 2);
    } else {
        reveal_with_fuel(spec_gcd, 2);
        if a % b > 0 {
            assert(a % b < b) by (nonlinear_arith)
                requires
                    b > 0,
            ;
        }
    }
}

/// The greatest common factor of `n1` and `n2`, by repeated remainders.
pub fn gcf(n1: u64, n2: u64) -> (r: u64)
    requires
        n2 > 0,
    ensures
        r == spec_gcd(n1 as nat, n2 as nat),
{
    let mut n1 = n1;
    let mut n2 = n2;
    let ghost g = spec_gcd(n1 as nat, n2 as nat);
    let mut rem = n1 % n2;
    while rem != 0
        invariant
            n2 > 0,
            rem == n1 % n2,
            spec_gcd(n1 as nat, n2 as nat) == g,
        decreases n2,
    {
        proof {
            lemma_gcd_step(n1 as nat, n2 as nat);
        }
        n1 = n2;
        n2 = rem;
        rem = n1 % n2;
    }
    proof {
        lemma_gcd_step(n1 as nat, n2 as nat);
        assert(spec_gcd(n2 as nat, 0) == n2);
    }
    n2
}

/// The least common multiple `a * b / gcd(a, b)`.
pub fn lcd(a: u64, b: u64) -> (r: u64)
    requires
        a > 0 || b > 0,
        a * b <= u64::MAX,
    ensures
        spec_gcd(a as nat, b as nat) > 0,
        r == (a * b) / (spec_gcd(a as nat, b as nat) as int),
{
    let g = gcd(a, b);
    proof {
        lemma_gcd_positive(a as nat, b as nat);
    }
    (a * b) / g
}

proof fn lemma_gcd_positive(a: nat, b: nat)
    requires
        a > 0 || b > 0,
    ensures
        spec_gcd(a, b) > 0,
    decreases (if a < b {
        a
    } else {
        b
    }),
{
    let max = if a < b {
        b
    } else {
        a
    };
    let min = if a < b {
        a
    } else {
        b
    };
    if min != 0 {
        lemma_gcd_positive(min, max % min);
    }
}

/// Two fractions with the same value round down to the same integer.
pub proof fn lemma_same_trunc(x: int, y: int, u: int, v: int)
    requires
        x >= 0,
        u >= 0,
        y > 0,
        v > 0,
        x * v == u * y,
    ensures
        x / y == u / v,
{
    let q = x / y;
    let r = x % y;
    assert(x == q * y + r && 0 <= r < y) by (nonlinear_arith)
        requires
            y > 0,
            q == x / y,
            r == x % y,
    ;
    assert(u * y == (q * v) * y + r * v) by (nonlinear_arith)
        requires
            x * v == u * y,
            x == q * y + r,
    ;
    assert((u - q * v) * y == r * v) by (nonlinear_arith)
        requires
            u * y == (q * v) * y + r * v,
    ;
    assert(0 <= u - q * v < v) by (nonlinear_arith)
        requires
            (u - q * v) * y == r * v,
            0 <= r < y,
            y > 0,
            v > 0,
    ;
    assert(u / v == q) by (nonlinear_arith)
        requires
            0 <= u - q * v < v,
            v > 0,
    ;
}

/// The whole number of ticks that `length` lasts at `tempo`:
/// `length / tempo * PPQ` rounded towards zero.
pub open spec fn spec_ticks(length: Length, tempo: Mpb) -> int {
    match length {
        Length::Nothing => 0,
        Length::MicroSeconds(f) => (f.numer * tempo.0.denom * PPQ) / (f.denom * tempo.0.numer),
    }
}

/// The ticks of `length` at `tempo`: `length / tempo * PPQ` rounded towards
/// zero; `None` when an intermediate value overflows.
pub fn length_to_ticks(length: Length, tempo: Mpb) -> (r: Option<u64>)
    requires
        length.wf(),
        tempo.0.wf(),
        tempo.0.numer > 0,
    ensures
        r matches Some(t) ==> t == spec_ticks(length, tempo),
        length matches Length::MicroSeconds(f) ==> (f.numer * tempo.0.denom * PPQ <= u64::MAX
            && f.denom * tempo.0.numer <= u64::MAX ==> r is Some),
        length is Nothing ==> r == Some(0u64),
{
    match length {
        Length::Nothing => Some(0),
        Length::MicroSeconds(f) => {
            let t = tempo.0;
            proof {
                if f.numer * t.denom * PPQ <= u64::MAX {
                    assert(f.numer * t.denom <= f.numer * t.denom * PPQ) by (nonlinear_arith)
                        requires
                            PPQ > 0,
                            f.numer * t.denom >= 0,
                    ;
                }
            }
            match ratio_checked_div(f, t) {
                Some(q) => {
                    let ppq = Fraction::from_integer(PPQ as u64);
                    proof {
                        if f.numer * t.denom * PPQ <= u64::MAX {
                            assert(q.numer * PPQ <= f.numer * t.denom * PPQ) by (nonlinear_arith)
                                requires
                                    q.numer <= f.numer * t.denom,
                                    PPQ > 0,
                            ;
                        }
                        assert(q.denom * 1 == q.denom);
                    }
                    match ratio_checked_mul(q, ppq) {
                        Some(p) => {
                            proof {
                                // p = q * PPQ and q = f / t, so p = f * t.denom * PPQ / (f.denom * t.numer).
                                assert(p.numer * q.denom == q.numer * PPQ * p.denom) by (
                                nonlinear_arith)
                                    requires
                                        p.numer * (q.denom * 1) == (q.numer * PPQ) * p.denom,
                                ;
                                assert(q.numer * (f.denom * t.numer) == (f.numer * t.denom)
                                    * q.denom);
                                assert(p.numer * (f.denom * t.numer) == (f.numer * t.denom * PPQ)
                                    * p.denom) by (nonlinear_arith)
                                    requires
                                        p.numer * q.denom == q.numer * PPQ * p.denom,
                                        q.numer * (f.denom * t.numer) == (f.numer * t.denom)
                                            * q.denom,
                                        q.denom > 0,
                                ;
                                assert(f.denom * t.numer > 0) by (nonlinear_arith)
                                    requires
                                        f.denom > 0,
                                        t.numer > 0,
                                ;
                                assert(f.numer * t.denom * PPQ >= 0) by (nonlinear_arith)
                                    requires
                                        f.numer >= 0,
                                        t.denom >= 0,
                                ;
                                lemma_same_trunc(
                                    p.numer as int,
                                    p.denom as int,
                                    f.numer * t.denom * PPQ,
                                    f.denom * t.numer,
                                );
                            }
                            Some(p.to_integer())
                        },
                        None => None,
                    }
                },
                None => None,
            }
        },
    }
}

/// Merges the rows of `data` into one row, keeping their order; an empty
/// `data` stays empty.
pub fn flatten<T>(data: &mut Vec<Vec<T>>)
    ensures
        old(data)@.len() == 0 ==> final(data)@.len() == 0,
        old(data)@.len() > 0 ==> final(data)@.len() == 1 && final(data)@[0]@ == old(
            data,
        )@.map_values(|row: Vec<T>| row@).flatten(),
{
    if data.len() > 0 {
        let mut rows: Vec<Vec<T>> = Vec::new();
        std::mem::swap(data, &mut rows);
        let ghost views = rows@.map_values(|row: Vec<T>| row@);
        let mut flat: Vec<T> = Vec::new();
        let mut i: usize = 0;
        let ghost initial_rows = rows@;
        while rows.len() > 0
            invariant
                views == initial_rows.map_values(|row: Vec<T>| row@),
                i + rows@.len() == initial_rows.len(),
                initial_rows.len() <= usize::MAX,
                forall|j: int| 0 <= j < rows@.len() ==> rows@[j] == initial_rows[i + j],
                flat@ == views.take(i as int).flatten_alt(),
            decreases rows@.len(),
        {
            let mut row = rows.remove(0);
            let ghost before = flat@;
            flat.append(&mut row);
            proof {
                assert(views.take(i + 1) =~= views.take(i as int).push(views[i as int]));
                assert(views.take(i + 1).drop_last() =~= views.take(i as int));
            }
            i = i + 1;
        }
        proof {
            assert(views.take(i as int) =~= views);
            views.lemma_flatten_and_flatten_alt_are_equivalent();
        }
        data.push(flat);
    }
}

} // verus!
