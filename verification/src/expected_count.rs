use vstd::prelude::*;

verus! {

/// The product of the lengths.
pub open spec fn product(lens: Seq<usize>) -> nat
    decreases lens.len(),
{
    if lens.len() == 0 {
        1
    } else {
        product(lens.drop_last()) * (lens.last() as nat)
    }
}

/// The base multiplied by itself so many times.
pub open spec fn power(base: int, times: nat) -> int
    decreases times,
{
    if times == 0 {
        1
    } else {
        base * power(base, (times - 1) as nat)
    }
}

/// A count as it is stored: held at the largest number.
pub open spec fn held(count: int) -> usize {
    if count > usize::MAX {
        usize::MAX
    } else if count < 0 {
        0
    } else {
        count as usize
    }
}

/// Number of points expected to hold all the tokens, were the tokens
/// spread over the points independently: the count of points times, for
/// each token, the share of the points that hold it, rounded down.
pub open spec fn spec_expected(lens: Seq<usize>, points_count: usize) -> usize {
    held(product(lens) as int / power(points_count as int, (lens.len() - 1) as nat))
}

/// The number that the digits stand for, the lowest digit first.
pub open spec fn value(digits: Seq<usize>, base: int) -> int
    decreases digits.len(),
{
    if digits.len() == 0 {
        0
    } else {
        digits[0] + base * value(digits.skip(1), base)
    }
}

/// Every digit is below the base.
pub open spec fn digits_ok(digits: Seq<usize>, base: int) -> bool {
    forall|i: int| 0 <= i < digits.len() ==> 0 <= #[trigger] digits[i] < base
}

proof fn lemma_power_positive(base: int, times: nat)
    requires
        base >= 1,
    ensures
        power(base, times) >= 1,
    decreases times,
{
    if times > 0 {
        lemma_power_positive(base, (times - 1) as nat);
        let p = power(base, (times - 1) as nat);
        assert(base * p >= 1) by (nonlinear_arith)
            requires
                base >= 1,
                p >= 1,
        ;
    }
}

proof fn lemma_value_nonnegative(digits: Seq<usize>, base: int)
    requires
        base >= 1,
    ensures
        value(digits, base) >= 0,
    decreases digits.len(),
{
    if digits.len() > 0 {
        lemma_value_nonnegative(digits.skip(1), base);
        let v = value(digits.skip(1), base);
        assert(base * v >= 0) by (nonlinear_arith)
            requires
                base >= 1,
                v >= 0,
        ;
    }
}

/// A digit more at the high end adds the digit times the base to the
/// power of its place.
proof fn lemma_value_push(digits: Seq<usize>, digit: usize, base: int)
    ensures
        value(digits.push(digit), base) == value(digits, base) + digit * power(
            base,
            digits.len(),
        ),
    decreases digits.len(),
{
    let longer = digits.push(digit);
    if digits.len() == 0 {
        assert(longer.skip(1) =~= Seq::<usize>::empty());
        assert(longer[0] == digit);
        assert(value(longer.skip(1), base) == 0);
        assert(base * 0 == 0) by (nonlinear_arith);
        assert(power(base, 0) == 1);
        assert(digit * power(base, 0) == digit) by (nonlinear_arith)
            requires
                power(base, 0) == 1,
        ;
        assert(value(digits, base) == 0);
    } else {
        lemma_value_push(digits.skip(1), digit, base);
        assert(longer.skip(1) =~= digits.skip(1).push(digit));
        assert(longer[0] == digits[0]);
        let rest = value(digits.skip(1), base);
        let p = power(base, (digits.len() - 1) as nat);
        assert(power(base, digits.len()) == base * p);
        assert(base * (rest + digit * p) == base * rest + digit * (base * p)) by (nonlinear_arith);
        assert(value(longer, base) == longer[0] + base * value(longer.skip(1), base));
    }
}

/// Dropping the lowest digits divides by the base to the power of their
/// number, rounding down.
proof fn lemma_value_skip(digits: Seq<usize>, base: int, k: nat)
    requires
        base >= 1,
        digits_ok(digits, base),
        k <= digits.len(),
    ensures
        value(digits, base) / power(base, k) == value(digits.skip(k as int), base),
    decreases k,
{
    if k == 0 {
        assert(digits.skip(0) =~= digits);
    } else {
        let rest = digits.skip(1);
        assert forall|i: int| 0 <= i < rest.len() implies 0 <= #[trigger] rest[i] < base by {
            assert(rest[i] == digits[i + 1]);
        }
        lemma_value_skip(rest, base, (k - 1) as nat);
        assert(rest.skip(k - 1) =~= digits.skip(k as int));
        let v = value(rest, base);
        let d = digits[0] as int;
        lemma_value_nonnegative(rest, base);
        lemma_value_nonnegative(digits, base);
        let p = power(base, (k - 1) as nat);
        lemma_power_positive(base, (k - 1) as nat);
        assert((d + base * v) / base == v) by (nonlinear_arith)
            requires
                0 <= d < base,
                v >= 0,
        ;
        vstd::arithmetic::div_mod::lemma_div_denominator(value(digits, base), base, p);
    }
}

/// The digits of a number in a base, the lowest first.
fn to_digits(number: usize, base: usize) -> (r: Vec<usize>)
    requires
        base >= 2,
    ensures
        digits_ok(r@, base as int),
        value(r@, base as int) == number,
{
    let mut out: Vec<usize> = Vec::new();
    let mut rest: usize = number;
    proof {
        assert(rest * power(base as int, 0) == rest) by (nonlinear_arith)
            requires
                power(base as int, 0) == 1,
        ;
    }
    while rest > 0
        invariant
            base >= 2,
            digits_ok(out@, base as int),
            value(out@, base as int) + rest * power(base as int, out@.len()) == number,
        decreases rest,
    {
        let digit: usize = rest % base;
        let ghost before = out@;
        let ghost p = power(base as int, before.len());
        proof {
            lemma_value_push(before, digit, base as int);
            assert(power(base as int, before.len() + 1) == base * p);
            let q = (rest / base) as int;
            assert(rest == q * base + digit) by (nonlinear_arith)
                requires
                    q == rest as int / base as int,
                    digit == rest as int % base as int,
                    base >= 2,
            ;
            assert(digit * p + q * (base * p) == (q * base + digit) * p) by (nonlinear_arith);
        }
        out.push(digit);
        assert((rest as int) / (base as int) < (rest as int)) by (nonlinear_arith)
            requires
                rest > 0,
                base >= 2,
        ;
        rest = rest / base;
    }
    proof {
        assert(0 * power(base as int, out@.len()) == 0) by (nonlinear_arith);
    }
    out
}

/// The digits of a number times a factor.
fn times(digits: &Vec<usize>, factor: usize, base: usize) -> (r: Vec<usize>)
    requires
        base >= 2,
        factor >= 1,
        digits_ok(digits@, base as int),
    ensures
        digits_ok(r@, base as int),
        value(r@, base as int) == value(digits@, base as int) * factor,
{
    let mut out: Vec<usize> = Vec::new();
    let mut carry: usize = 0;
    let mut j: usize = 0;
    proof {
        assert(digits@.take(0) =~= Seq::<usize>::empty());
        assert(0 * power(base as int, 0) == 0) by (nonlinear_arith);
        assert(0 * (factor as int) == 0) by (nonlinear_arith);
    }
    while j < digits.len()
        invariant
            j <= digits.len(),
            base >= 2,
            factor >= 1,
            digits_ok(digits@, base as int),
            digits_ok(out@, base as int),
            out@.len() == j,
            carry < factor,
            value(out@, base as int) + carry * power(base as int, j as nat) == value(
                digits@.take(j as int),
                base as int,
            ) * factor,
        decreases digits.len() - j,
    {
        let digit: usize = digits[j];
        assert(0 <= (digit as int) * (factor as int) + (carry as int) < (base as int) * (
        factor as int)) by (nonlinear_arith)
            requires
                0 <= digit < base,
                0 <= carry < factor,
        ;
        assert((base as int) * (factor as int) <= 0xffff_ffff_ffff_ffff * 0xffff_ffff_ffff_ffff)
            by (nonlinear_arith)
            requires
                0 <= base <= 0xffff_ffff_ffff_ffff,
                0 <= factor <= 0xffff_ffff_ffff_ffff,
        ;
        let total: u128 = (digit as u128) * (factor as u128) + (carry as u128);
        let low: u128 = total % (base as u128);
        let high: u128 = total / (base as u128);
        assert(high < factor && total == high * base + low) by (nonlinear_arith)
            requires
                0 <= total < (base as int) * (factor as int),
                high == total as int / base as int,
                low == total as int % base as int,
                base >= 2,
        ;
        let ghost before = out@;
        let ghost p = power(base as int, j as nat);
        let ghost done = value(digits@.take(j as int), base as int);
        proof {
            lemma_value_push(before, low as usize, base as int);
            assert(digits@.take(j as int + 1) =~= digits@.take(j as int).push(digit));
            lemma_value_push(digits@.take(j as int), digit, base as int);
            assert(power(base as int, (j + 1) as nat) == base * p);
            let v = value(before, base as int);
            assert(v + low * p + high * (base * p) == (done + digit * p) * factor) by (
                nonlinear_arith)
                requires
                    v + carry * p == done * factor,
                    total == digit * factor + carry,
                    total == high * base + low,
            ;
        }
        out.push(low as usize);
        carry = high as usize;
        j = j + 1;
    }
    proof {
        assert(digits@.take(digits@.len() as int) =~= digits@);
    }
    let ghost target = value(digits@, base as int) * factor;
    while carry > 0
        invariant
            base >= 2,
            digits_ok(out@, base as int),
            value(out@, base as int) + carry * power(base as int, out@.len()) == target,
        decreases carry,
    {
        let digit: usize = carry % base;
        let ghost before = out@;
        let ghost p = power(base as int, before.len());
        proof {
            lemma_value_push(before, digit, base as int);
            assert(power(base as int, before.len() + 1) == base * p);
            let q = (carry / base) as int;
            assert(carry == q * base + digit) by (nonlinear_arith)
                requires
                    q == carry as int / base as int,
                    digit == carry as int % base as int,
                    base >= 2,
            ;
            assert(digit * p + q * (base * p) == (q * base + digit) * p) by (nonlinear_arith);
        }
        out.push(digit);
        assert((carry as int) / (base as int) < (carry as int)) by (nonlinear_arith)
            requires
                carry > 0,
                base >= 2,
        ;
        carry = carry / base;
    }
    proof {
        assert(0 * power(base as int, out@.len()) == 0) by (nonlinear_arith);
    }
    out
}

/// The number that the digits from `from` on stand for, held at the
/// largest number.
fn high_part(digits: &Vec<usize>, from: usize, base: usize) -> (r: usize)
    requires
        base >= 2,
        digits_ok(digits@, base as int),
    ensures
        from <= digits@.len() ==> r == held(value(digits@.skip(from as int), base as int)),
        from > digits@.len() ==> r == 0,
{
    if from >= digits.len() {
        proof {
            if from == digits.len() {
                assert(digits@.skip(from as int) =~= Seq::<usize>::empty());
            }
        }
        return 0;
    }
    let mut acc: usize = 0;
    let mut over: bool = false;
    let mut j: usize = digits.len();
    proof {
        assert(digits@.skip(j as int) =~= Seq::<usize>::empty());
    }
    while j > from
        invariant
            from <= j <= digits.len(),
            base >= 2,
            digits_ok(digits@, base as int),
            !over ==> acc == value(digits@.skip(j as int), base as int),
            over ==> value(digits@.skip(j as int), base as int) > usize::MAX,
        decreases j,
    {
        j = j - 1;
        let digit: usize = digits[j];
        let ghost upper = value(digits@.skip(j as int + 1), base as int);
        proof {
            assert(digits@.skip(j as int).skip(1) =~= digits@.skip(j as int + 1));
            assert(digits@.skip(j as int)[0] == digit);
            lemma_value_nonnegative(digits@.skip(j as int + 1), base as int);
            assert(digit + base * upper >= upper) by (nonlinear_arith)
                requires
                    base >= 2,
                    upper >= 0,
                    digit >= 0,
            ;
        }
        if !over {
            assert(0 <= (acc as int) * (base as int) + (digit as int) <= 0xffff_ffff_ffff_ffff
                * 0xffff_ffff_ffff_ffff + 0xffff_ffff_ffff_ffff) by (nonlinear_arith)
                requires
                    0 <= acc <= 0xffff_ffff_ffff_ffff,
                    0 <= base <= 0xffff_ffff_ffff_ffff,
                    0 <= digit <= 0xffff_ffff_ffff_ffff,
            ;
            let wide: u128 = (acc as u128) * (base as u128) + (digit as u128);
            assert(wide == digit + base * upper) by (nonlinear_arith)
                requires
                    wide == acc * base + digit,
                    acc == upper,
            ;
            if wide > usize::MAX as u128 {
                over = true;
            } else {
                acc = wide as usize;
            }
        }
    }
    if over {
        usize::MAX
    } else {
        acc
    }
}

proof fn lemma_product_take(lens: Seq<usize>, k: int)
    requires
        0 <= k < lens.len(),
    ensures
        product(lens.take(k + 1)) == product(lens.take(k)) * (lens[k] as nat),
{
    assert(lens.take(k + 1).drop_last() =~= lens.take(k));
    assert(lens.take(k + 1).last() == lens[k]);
}

proof fn lemma_product_with_zero(lens: Seq<usize>, k: int)
    requires
        0 <= k < lens.len(),
        lens[k] == 0,
    ensures
        product(lens) == 0,
    decreases lens.len(),
{
    if k == lens.len() - 1 {
        assert(product(lens.drop_last()) * 0 == 0) by (nonlinear_arith);
    } else {
        lemma_product_with_zero(lens.drop_last(), k);
        assert(0 * (lens.last() as nat) == 0) by (nonlinear_arith);
    }
}

proof fn lemma_power_of_one(times: nat)
    ensures
        power(1, times) == 1,
    decreases times,
{
    if times > 0 {
        lemma_power_of_one((times - 1) as nat);
    }
}

/// The digits stand for a number below the base to the power of their
/// count.
proof fn lemma_value_below(digits: Seq<usize>, base: int)
    requires
        base >= 1,
        digits_ok(digits, base),
    ensures
        0 <= value(digits, base) < power(base, digits.len()),
    decreases digits.len(),
{
    if digits.len() > 0 {
        let rest = digits.skip(1);
        assert forall|i: int| 0 <= i < rest.len() implies 0 <= #[trigger] rest[i] < base by {
            assert(rest[i] == digits[i + 1]);
        }
        lemma_value_below(rest, base);
        let v = value(rest, base);
        let p = power(base, rest.len());
        let d = digits[0] as int;
        assert(0 <= d + base * v < base * p) by (nonlinear_arith)
            requires
                0 <= d < base,
                0 <= v < p,
                base >= 1,
        ;
    }
}

proof fn lemma_power_grows(base: int, small: nat, large: nat)
    requires
        base >= 1,
        small <= large,
    ensures
        power(base, small) <= power(base, large),
    decreases large,
{
    if small < large {
        lemma_power_grows(base, small, (large - 1) as nat);
        lemma_power_positive(base, (large - 1) as nat);
        let p = power(base, (large - 1) as nat);
        assert(base * p >= p) by (nonlinear_arith)
            requires
                base >= 1,
                p >= 1,
        ;
    }
}

/// Reckons the number of points expected to hold all the tokens, from the
/// lengths of the lists of the tokens and the count of points. The product
/// of the lengths is kept in full, in digits to the base of the count of
/// points, so that nothing is lost to rounding before the end.
pub fn expected_count(lens: &Vec<usize>, points_count: usize) -> (r: usize)
    requires
        points_count > 0,
        lens@.len() > 0,
    ensures
        r == spec_expected(lens@, points_count),
{
    let n: usize = lens.len();
    // A token that no point holds leaves nothing to expect.
    let mut z: usize = 0;
    while z < n
        invariant
            z <= n,
            n == lens@.len(),
            n > 0,
            points_count > 0,
            forall|k: int| 0 <= k < z ==> lens@[k] >= 1,
        decreases n - z,
    {
        if lens[z] == 0 {
            proof {
                lemma_product_with_zero(lens@, z as int);
                lemma_power_positive(points_count as int, (n - 1) as nat);
                let p = power(points_count as int, (n - 1) as nat);
                assert(0int / p == 0) by (nonlinear_arith)
                    requires
                        p >= 1,
                ;
            }
            return 0;
        }
        z = z + 1;
    }
    if points_count == 1 {
        // Nothing to divide by: the product itself, held at the largest number.
        let mut acc: usize = 1;
        let mut over: bool = false;
        let mut k: usize = 0;
        proof {
            assert(lens@.take(0) =~= Seq::<usize>::empty());
        }
        while k < n
            invariant
                k <= n,
                n == lens@.len(),
                forall|q: int| 0 <= q < n ==> lens@[q] >= 1,
                !over ==> acc == product(lens@.take(k as int)),
                over ==> product(lens@.take(k as int)) > usize::MAX,
            decreases n - k,
        {
            proof {
                lemma_product_take(lens@, k as int);
                let before = product(lens@.take(k as int));
                let factor = lens@[k as int] as nat;
                assert(before * factor >= before) by (nonlinear_arith)
                    requires
                        factor >= 1,
                ;
            }
            if !over {
                match acc.checked_mul(lens[k]) {
                    Some(v) => {
                        acc = v;
                    },
                    None => {
                        over = true;
                    },
                }
            }
            k = k + 1;
        }
        proof {
            assert(lens@.take(n as int) =~= lens@);
            lemma_power_of_one((n - 1) as nat);
        }
        return if over {
            usize::MAX
        } else {
            acc
        };
    }
    let mut digits: Vec<usize> = to_digits(lens[0], points_count);
    let mut k: usize = 1;
    proof {
        assert(lens@.take(1).drop_last() =~= Seq::<usize>::empty());
        assert(lens@.take(1).last() == lens@[0]);
        assert(product(Seq::<usize>::empty()) == 1);
        assert(product(lens@.take(1)) == product(lens@.take(1).drop_last()) * (lens@.take(
            1,
        ).last() as nat));
        assert(product(lens@.take(1)) == 1 * (lens@[0] as nat));
    }
    while k < n
        invariant
            1 <= k <= n,
            n == lens@.len(),
            points_count >= 2,
            forall|q: int| 0 <= q < n ==> lens@[q] >= 1,
            digits_ok(digits@, points_count as int),
            value(digits@, points_count as int) == product(lens@.take(k as int)),
        decreases n - k,
    {
        proof {
            lemma_product_take(lens@, k as int);
        }
        digits = times(&digits, lens[k], points_count);
        k = k + 1;
    }
    proof {
        assert(lens@.take(n as int) =~= lens@);
        let base = points_count as int;
        if n - 1 <= digits@.len() {
            lemma_value_skip(digits@, base, (n - 1) as nat);
        } else {
            lemma_value_below(digits@, base);
            lemma_power_grows(base, digits@.len(), (n - 1) as nat);
            let v = value(digits@, base);
            let p = power(base, (n - 1) as nat);
            assert(v / p == 0) by (nonlinear_arith)
                requires
                    0 <= v < p,
            ;
        }
    }
    high_part(&digits, n - 1, points_count)
}

} // verus!
