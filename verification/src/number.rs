//! The numeric model: digit sequences, their values, and positional representations.
use vstd::prelude::*;

verus! {

/// `b` raised to the power `e`.
pub open spec fn pow_nat(b: nat, e: nat) -> nat
    decreases e,
{
    if e == 0 {
        1
    } else {
        b * pow_nat(b, (e - 1) as nat)
    }
}

/// Value of a most-significant-first digit sequence in radix `r`.
pub open spec fn digits_value(ds: Seq<nat>, r: nat) -> nat
    decreases ds.len(),
{
    if ds.len() == 0 {
        0
    } else {
        digits_value(ds.drop_last(), r) * r + ds.last()
    }
}

/// The canonical radix-`r` digits of `n`, most significant first: no leading zero,
/// and the single digit 0 for zero.
pub open spec fn radix_digits(n: nat, r: nat) -> Seq<nat>
    decreases n,
{
    if r < 2 || n < r {
        seq![n]
    } else {
        proof {
            lemma_div_smaller(n, r);
        }
        radix_digits(n / r, r).push(n % r)
    }
}

pub proof fn lemma_div_smaller(n: nat, r: nat)
    requires
        r >= 2,
        n >= r,
    ensures
        n / r < n,
{
    assert(n / r < n) by (nonlinear_arith)
        requires
            r >= 2,
            n >= r,
    ;
}

pub open spec fn digits_below(ds: Seq<nat>, r: nat) -> bool {
    forall|i: int| 0 <= i < ds.len() ==> #[trigger] ds[i] < r
}

/// `n` zero digits.
pub open spec fn zero_digits(n: nat) -> Seq<nat> {
    Seq::new(n, |i: int| 0nat)
}

pub proof fn lemma_pow_pos(b: nat, e: nat)
    requires
        b >= 1,
    ensures
        pow_nat(b, e) >= 1,
    decreases e,
{
    if e > 0 {
        lemma_pow_pos(b, (e - 1) as nat);
        assert(b * pow_nat(b, (e - 1) as nat) >= 1) by (nonlinear_arith)
            requires
                b >= 1,
                pow_nat(b, (e - 1) as nat) >= 1,
        ;
    }
}

pub proof fn lemma_pow_monotone(b: nat, e1: nat, e2: nat)
    requires
        b >= 1,
        e1 <= e2,
    ensures
        pow_nat(b, e1) <= pow_nat(b, e2),
    decreases e2,
{
    if e1 < e2 {
        lemma_pow_monotone(b, e1, (e2 - 1) as nat);
        lemma_pow_pos(b, (e2 - 1) as nat);
        let p = pow_nat(b, (e2 - 1) as nat);
        assert(p <= b * p) by (nonlinear_arith)
            requires
                b >= 1,
                p >= 1,
        ;
    }
}

/// A sequence of `n` digits below `r` has value below `r^n`.
pub proof fn lemma_digits_value_bound(ds: Seq<nat>, r: nat)
    requires
        digits_below(ds, r),
    ensures
        digits_value(ds, r) < pow_nat(r, ds.len()),
    decreases ds.len(),
{
    if ds.len() > 0 {
        let init = ds.drop_last();
        assert(digits_below(init, r)) by {
            assert forall|i: int| 0 <= i < init.len() implies #[trigger] init[i] < r by {
                assert(init[i] == ds[i]);
            }
        }
        lemma_digits_value_bound(init, r);
        let v = digits_value(init, r);
        let p = pow_nat(r, init.len());
        let d = ds.last();
        assert(d < r) by {
            assert(ds[ds.len() - 1] < r);
        }
        assert(v * r + d < r * p) by (nonlinear_arith)
            requires
                v < p,
                d < r,
        ;
        assert(pow_nat(r, ds.len()) == r * p);
    }
}

/// A digit sequence of value zero holds only zeros.
pub proof fn lemma_digits_value_zero(ds: Seq<nat>, r: nat)
    requires
        r >= 1,
        digits_value(ds, r) == 0,
    ensures
        ds == zero_digits(ds.len()),
    decreases ds.len(),
{
    if ds.len() > 0 {
        let init = ds.drop_last();
        let v = digits_value(init, r);
        assert(v * r + ds.last() == 0);
        assert(v == 0) by (nonlinear_arith)
            requires
                v * r + ds.last() == 0,
                r >= 1,
        ;
        lemma_digits_value_zero(init, r);
        assert(ds =~= init.push(ds.last()));
        assert(ds =~= zero_digits(ds.len()));
    }
}

/// Digits after division: the value of `ds.push(d)` divided by `r` is the value of `ds`.
pub proof fn lemma_value_push_divmod(ds: Seq<nat>, d: nat, r: nat)
    requires
        r >= 1,
        d < r,
    ensures
        digits_value(ds.push(d), r) / r == digits_value(ds, r),
        digits_value(ds.push(d), r) % r == d,
{
    assert(ds.push(d).drop_last() =~= ds);
    let v = digits_value(ds, r);
    assert((v * r + d) / r == v && (v * r + d) % r == d) by (nonlinear_arith)
        requires
            r >= 1,
            d < r,
    ;
}

/// Padding the canonical digits of a value with zeros gives back any digit sequence
/// of that value whose digits are below the radix.
pub proof fn lemma_radix_digits_pad(ds: Seq<nat>, r: nat)
    requires
        r >= 2,
        ds.len() >= 1,
        digits_below(ds, r),
    ensures
        radix_digits(digits_value(ds, r), r).len() <= ds.len(),
        zero_digits((ds.len() - radix_digits(digits_value(ds, r), r).len()) as nat) + radix_digits(
            digits_value(ds, r),
            r,
        ) == ds,
    decreases ds.len(),
{
    let n = digits_value(ds, r);
    let init = ds.drop_last();
    let d = ds.last();
    assert(d < r) by {
        assert(ds[ds.len() - 1] < r);
    }
    assert(ds =~= init.push(d));
    lemma_value_push_divmod(init, d, r);
    let v = digits_value(init, r);
    if init.len() == 0 {
        assert(v == 0);
        assert(n == d) by {
            assert(n == v * r + d);
            assert(0 * r == 0);
        }
        assert(radix_digits(n, r) == seq![d]);
        assert(zero_digits(0) + seq![d] =~= ds);
    } else {
        assert(digits_below(init, r)) by {
            assert forall|i: int| 0 <= i < init.len() implies #[trigger] init[i] < r by {
                assert(init[i] == ds[i]);
            }
        }
        if v == 0 {
            lemma_digits_value_zero(init, r);
            assert(n == d) by {
                assert(n == v * r + d);
                assert(0 * r == 0);
            }
            assert(radix_digits(n, r) == seq![d]);
            assert(zero_digits((ds.len() - 1) as nat) + seq![d] =~= ds);
        } else {
            lemma_radix_digits_pad(init, r);
            assert(n >= r) by (nonlinear_arith)
                requires
                    n == v * r + d,
                    v >= 1,
            ;
            assert(radix_digits(n, r) == radix_digits(v, r).push(d));
            let rd = radix_digits(v, r);
            assert(zero_digits((ds.len() - rd.push(d).len()) as nat) + rd.push(d) =~= (zero_digits(
                (init.len() - rd.len()) as nat,
            ) + rd).push(d));
        }
    }
}

/// A digit sequence that starts with a nonzero digit, or is the single digit zero,
/// is the canonical representation of its value.
pub proof fn lemma_radix_digits_canonical(ds: Seq<nat>, r: nat)
    requires
        r >= 2,
        ds.len() >= 1,
        digits_below(ds, r),
        ds[0] != 0 || ds.len() == 1,
    ensures
        radix_digits(digits_value(ds, r), r) == ds,
{
    lemma_radix_digits_pad(ds, r);
    let rd = radix_digits(digits_value(ds, r), r);
    let k = (ds.len() - rd.len()) as nat;
    if k > 0 {
        assert((zero_digits(k) + rd)[0] == 0);
        if ds.len() == 1 {
            assert(rd.len() == 0);
            lemma_radix_digits_len(digits_value(ds, r), r);
        }
    }
    assert(zero_digits(0) + rd =~= rd);
}

pub proof fn lemma_radix_digits_len(n: nat, r: nat)
    ensures
        radix_digits(n, r).len() >= 1,
    decreases n,
{
    if r >= 2 && n >= r {
        lemma_div_smaller(n, r);
        lemma_radix_digits_len(n / r, r);
    }
}

pub proof fn lemma_radix_digits_below(n: nat, r: nat)
    requires
        r >= 2,
    ensures
        digits_below(radix_digits(n, r), r),
        digits_value(radix_digits(n, r), r) == n,
    decreases n,
{
    if n >= r {
        lemma_div_smaller(n, r);
        lemma_radix_digits_below(n / r, r);
        let rd = radix_digits(n / r, r);
        assert(rd.push(n % r).drop_last() =~= rd);
        assert((n / r) * r + n % r == n) by (nonlinear_arith)
            requires
                r >= 2,
        ;
        assert(radix_digits(n, r) == rd.push(n % r));
        assert(digits_value(rd.push(n % r), r) == digits_value(rd, r) * r + n % r);
    } else {
        assert(seq![n].drop_last() =~= Seq::<nat>::empty());
        assert(digits_value(Seq::<nat>::empty(), r) == 0);
        assert(digits_value(seq![n], r) == 0 * r + n);
    }
}

} // verus!

verus! {

pub proof fn lemma_pow_add(b: nat, e1: nat, e2: nat)
    ensures
        pow_nat(b, e1 + e2) == pow_nat(b, e1) * pow_nat(b, e2),
    decreases e2,
{
    if e2 > 0 {
        lemma_pow_add(b, e1, (e2 - 1) as nat);
        let p1 = pow_nat(b, e1);
        let p2 = pow_nat(b, (e2 - 1) as nat);
        assert(pow_nat(b, e1 + e2) == b * pow_nat(b, (e1 + e2 - 1) as nat));
        assert(pow_nat(b, e2) == b * p2);
        assert(b * (p1 * p2) == p1 * (b * p2)) by (nonlinear_arith);
    } else {
        assert(pow_nat(b, e1) * 1 == pow_nat(b, e1));
    }
}

} // verus!
