//! Exact sums of decimals, column by column.
//!
//! A row of columns stands for an integer the way a row of digits does, most
//! significant first, except that a column may hold any integer, negative
//! ones too. Adding numbers digit by digit into such a row needs no carrying
//! and loses nothing; `settle` then carries once and rounds.

use vstd::prelude::*;
use crate::decimal::{lemma_pow10_positive, pow10};
use crate::money::MAX_TYPED_CENTS;

verus! {

/// The integer that the row `cols` stands for.
pub open spec fn weigh(cols: Seq<i128>) -> int
    decreases cols.len(),
{
    if cols.len() == 0 {
        0
    } else {
        weigh(cols.drop_last()) * 10 + cols.last()
    }
}

/// `t / unit` rounded to the nearest integer, a tie going away from zero.
pub open spec fn round_half_away(t: int, unit: int) -> int {
    if t >= 0 {
        (2 * t + unit) / (2 * unit)
    } else {
        -((2 * (-t) + unit) / (2 * unit))
    }
}

/// `c` as hundredths, if an expression can be worth that much.
pub open spec fn fit(c: int) -> Option<i64> {
    if -MAX_TYPED_CENTS <= c <= MAX_TYPED_CENTS {
        Some(c as i64)
    } else {
        None
    }
}

pub proof fn lemma_weigh_concat(a: Seq<i128>, b: Seq<i128>)
    ensures
        weigh(a + b) == weigh(a) * pow10(b.len()) + weigh(b),
    decreases b.len(),
{
    if b.len() == 0 {
        assert(a + b =~= a);
        assert(weigh(a) * 1 == weigh(a));
    } else {
        let b0 = b.drop_last();
        lemma_weigh_concat(a, b0);
        assert((a + b).drop_last() =~= a + b0);
        assert((a + b).last() == b.last());
        let x = weigh(a);
        let p = pow10(b0.len());
        assert(pow10(b.len()) == 10 * p);
        assert((x * p + weigh(b0)) * 10 == x * (10 * p) + weigh(b0) * 10) by (nonlinear_arith);
    }
}

pub proof fn lemma_weigh_single(x: i128)
    ensures
        weigh(seq![x]) == x,
{
    assert(seq![x].drop_last() =~= Seq::<i128>::empty());
    assert(weigh(Seq::<i128>::empty()) == 0);
}

/// Changing one column changes the row's number by the difference, at that
/// column's weight.
pub proof fn lemma_weigh_update(a: Seq<i128>, p: int, y: i128)
    requires
        0 <= p < a.len(),
    ensures
        weigh(a.update(p, y)) == weigh(a) + (y - a[p]) * pow10((a.len() - 1 - p) as nat),
    decreases a.len(),
{
    let b = a.update(p, y);
    if p == a.len() - 1 {
        assert(b.drop_last() =~= a.drop_last());
        assert(pow10(0) == 1);
        assert((y - a[p]) * 1 == y - a[p]);
    } else {
        assert(b.drop_last() =~= a.drop_last().update(p, y));
        lemma_weigh_update(a.drop_last(), p, y);
        let d = y - a[p];
        let w = pow10((a.len() - 2 - p) as nat);
        assert(pow10((a.len() - 1 - p) as nat) == 10 * w);
        assert((weigh(a.drop_last()) + d * w) * 10 == weigh(a.drop_last()) * 10 + d * (10 * w))
            by (nonlinear_arith);
    }
}

/// A row whose columns each lie within `9 * n` of zero stands for a number
/// within `n * (10^len - 1)` of zero.
pub proof fn lemma_weigh_bound(a: Seq<i128>, n: int)
    requires
        n >= 0,
        forall|i: int| 0 <= i < a.len() ==> -9 * n <= #[trigger] a[i] <= 9 * n,
    ensures
        -n * (pow10(a.len()) - 1) <= weigh(a) <= n * (pow10(a.len()) - 1),
    decreases a.len(),
{
    if a.len() == 0 {
        assert(n * 0 == 0);
        assert(-n * 0 == 0);
    } else {
        let a0 = a.drop_last();
        assert forall|i: int| 0 <= i < a0.len() implies -9 * n <= #[trigger] a0[i] <= 9 * n by {
            assert(a0[i] == a[i]);
        }
        lemma_weigh_bound(a0, n);
        let p = pow10(a0.len());
        let w = weigh(a0);
        let x = a.last() as int;
        assert(pow10(a.len()) == 10 * p);
        assert(-9 * n <= a[a.len() - 1] <= 9 * n);
        assert(w * 10 + x <= n * (10 * p - 1)) by (nonlinear_arith)
            requires
                w <= n * (p - 1),
                x <= 9 * n,
        ;
        assert(w * 10 + x >= -n * (10 * p - 1)) by (nonlinear_arith)
            requires
                w >= -n * (p - 1),
                x >= -9 * n,
        ;
    }
}

/// Rounding read off a floor quotient `q` and its remainder `r`.
pub proof fn lemma_round_from_floor(t: int, unit: int, q: int, r: int)
    requires
        unit >= 1,
        t == q * unit + r,
        0 <= r < unit,
    ensures
        t >= 0 <==> q >= 0,
        t >= 0 ==> round_half_away(t, unit) == if 2 * r >= unit {
            q + 1
        } else {
            q
        },
        t < 0 ==> round_half_away(t, unit) == if 2 * r > unit {
            q + 1
        } else {
            q
        },
{
    assert(t >= 0 <==> q >= 0) by (nonlinear_arith)
        requires
            unit >= 1,
            t == q * unit + r,
            0 <= r < unit,
    ;
    let d = 2 * unit;
    if t >= 0 {
        let x = 2 * t + unit;
        if 2 * r >= unit {
            assert(x == d * (q + 1) + (2 * r - unit)) by (nonlinear_arith)
                requires
                    x == 2 * t + unit,
                    t == q * unit + r,
                    d == 2 * unit,
            ;
            vstd::arithmetic::div_mod::lemma_fundamental_div_mod_converse(
                x,
                d,
                q + 1,
                2 * r - unit,
            );
        } else {
            assert(x == d * q + (2 * r + unit)) by (nonlinear_arith)
                requires
                    x == 2 * t + unit,
                    t == q * unit + r,
                    d == 2 * unit,
            ;
            vstd::arithmetic::div_mod::lemma_fundamental_div_mod_converse(x, d, q, 2 * r + unit);
        }
    } else {
        let x = 2 * (-t) + unit;
        if 2 * r > unit {
            assert(x == d * (-q - 1) + (3 * unit - 2 * r)) by (nonlinear_arith)
                requires
                    x == 2 * (-t) + unit,
                    t == q * unit + r,
                    d == 2 * unit,
            ;
            vstd::arithmetic::div_mod::lemma_fundamental_div_mod_converse(
                x,
                d,
                -q - 1,
                3 * unit - 2 * r,
            );
        } else {
            assert(x == d * (-q) + (unit - 2 * r)) by (nonlinear_arith)
                requires
                    x == 2 * (-t) + unit,
                    t == q * unit + r,
                    d == 2 * unit,
            ;
            vstd::arithmetic::div_mod::lemma_fundamental_div_mod_converse(x, d, -q, unit - 2 * r);
        }
    }
}

/// Quotient and remainder of `v` by ten, the remainder never negative.
fn floor_div10(v: i128) -> (r: (i128, i128))
    requires
        -0x1000_0000_0000_0000_0000 <= v <= 0x1000_0000_0000_0000_0000,
    ensures
        v == r.0 * 10 + r.1,
        0 <= r.1 <= 9,
{
    if v >= 0 {
        (v / 10, v % 10)
    } else {
        let w: i128 = -v;
        let c0: i128 = w / 10;
        let d0: i128 = w % 10;
        if d0 == 0 {
            (-c0, 0)
        } else {
            (-c0 - 1, 10 - d0)
        }
    }
}

/// More than any expression is worth, with room to spare for carries.
const WIDE: i128 = 0x1_0000_0000_0000_0000_0000_0000;

/// Carries through the row and rounds it to its first `whole` columns, half
/// away from zero; `None` when the result is more than an expression can be
/// worth. Each column
/// must lie within `9 * terms` of zero, as it does after `terms` numbers
/// were added digit by digit.
pub(crate) fn settle(cols: &Vec<i128>, whole: usize, terms: usize) -> (r: Option<i64>)
    requires
        whole <= cols.len(),
        forall|p: int| 0 <= p < cols.len() ==> -9 * terms <= #[trigger] cols[p] <= 9 * terms,
    ensures
        r == fit(round_half_away(weigh(cols@), pow10((cols.len() - whole) as nat))),
{
    let n = cols.len();
    let ghost low = cols@.skip(whole as int);
    let ghost high = cols@.take(whole as int);
    let ghost unit = pow10((n - whole) as nat);
    let mut carry: i128 = 0;
    let mut top: i128 = 0;
    let mut below: bool = false;
    let ghost mut rem: int = 0;
    let ghost mut rest: int = 0;
    let mut j: usize = n;
    proof {
        assert(cols@.skip(n as int) =~= Seq::<i128>::empty());
        assert(pow10(0) == 1);
    }
    while j > whole
        invariant
            whole <= j <= n,
            n == cols.len(),
            forall|p: int| 0 <= p < cols.len() ==> -9 * terms <= #[trigger] cols[p] <= 9 * terms,
            weigh(cols@.skip(j as int)) == carry * pow10((n - j) as nat) + rem,
            0 <= rem < pow10((n - j) as nat),
            -terms <= carry <= terms,
            0 <= top <= 9,
            0 <= rest,
            below <==> rest > 0,
            j == n ==> rem == 0 && top == 0 && rest == 0,
            j < n ==> rem == top * pow10((n - j - 1) as nat) + rest && rest < pow10(
                (n - j - 1) as nat,
            ),
        decreases j,
    {
        let ghost old_rem = rem;
        let ghost old_carry = carry;
        let ghost w = pow10((n - j) as nat);
        let ghost was_top = top;
        let ghost was_rest = rest;
        j = j - 1;
        let v: i128 = cols[j] + carry;
        let (c, d) = floor_div10(v);
        proof {
            let tail = cols@.skip(j as int + 1);
            assert(cols@.skip(j as int) =~= seq![cols[j as int]] + tail);
            lemma_weigh_concat(seq![cols[j as int]], tail);
            lemma_weigh_single(cols[j as int]);
            lemma_pow10_positive((n - j - 1) as nat);
            assert(pow10((n - j) as nat) == 10 * w);
            rem = d * w + old_rem;
            rest = old_rem;
            let x = cols[j as int] as int;
            assert(x * w + (old_carry * w + old_rem) == c * (10 * w) + (d * w + old_rem))
                by (nonlinear_arith)
                requires
                    x + old_carry == c * 10 + d,
            ;
            assert(d * w + old_rem < 10 * w) by (nonlinear_arith)
                requires
                    0 <= d <= 9,
                    0 <= old_rem < w,
            ;
            assert(d * w + old_rem >= 0) by (nonlinear_arith)
                requires
                    0 <= d <= 9,
                    0 <= old_rem,
                    w >= 1,
            ;
            if j + 1 < n {
                let w1 = pow10((n - j - 2) as nat);
                lemma_pow10_positive((n - j - 2) as nat);
                assert((old_rem > 0) == (was_top != 0 || was_rest > 0)) by (nonlinear_arith)
                    requires
                        old_rem == was_top * w1 + was_rest,
                        0 <= was_top,
                        0 <= was_rest,
                        w1 >= 1,
                ;
            }
        }
        below = below || top != 0;
        top = d;
        carry = c;
    }
    let mut q: i128 = 0;
    let mut k: usize = 0;
    proof {
        assert(cols@.take(0) =~= Seq::<i128>::empty());
        assert(cols@ =~= high + low);
        lemma_weigh_concat(high, low);
        lemma_pow10_positive((n - whole) as nat);
    }
    while k < whole
        invariant
            k <= whole <= n,
            n == cols.len(),
            forall|p: int| 0 <= p < cols.len() ==> -9 * terms <= #[trigger] cols[p] <= 9 * terms,
            q == weigh(cols@.take(k as int)),
            -WIDE <= q <= WIDE,
            high == cols@.take(whole as int),
            low == cols@.skip(whole as int),
            unit == pow10((n - whole) as nat),
            unit >= 1,
            weigh(cols@) == weigh(high) * unit + weigh(low),
            weigh(low) == carry * unit + rem,
            0 <= rem < unit,
            -terms <= carry <= terms,
        decreases whole - k,
    {
        q = q * 10 + cols[k];
        k = k + 1;
        proof {
            assert(cols@.take(k as int).drop_last() =~= cols@.take(k as int - 1));
        }
        if q > WIDE || q < -WIDE {
            proof {
                let mid = cols@.subrange(k as int, whole as int);
                assert(high =~= cols@.take(k as int) + mid);
                lemma_weigh_concat(cols@.take(k as int), mid);
                assert forall|i: int| 0 <= i < mid.len() implies -9 * terms <= #[trigger] mid[i]
                    <= 9 * terms by {
                    assert(mid[i] == cols[k + i]);
                }
                lemma_weigh_bound(mid, terms as int);
                let m = pow10(mid.len());
                lemma_pow10_positive(mid.len());
                let h = weigh(high);
                let wm = weigh(mid);
                let t = weigh(cols@);
                let big = h + carry;
                assert(t == big * unit + rem) by (nonlinear_arith)
                    requires
                        t == h * unit + (carry * unit + rem),
                        big == h + carry,
                ;
                lemma_round_from_floor(t, unit, big, rem);
                if q > WIDE {
                    assert(h >= q - terms) by (nonlinear_arith)
                        requires
                            h == q * m + wm,
                            wm >= -terms * (m - 1),
                            m >= 1,
                            q > terms,
                            terms >= 0,
                    ;
                } else {
                    assert(h <= q + terms) by (nonlinear_arith)
                        requires
                            h == q * m + wm,
                            wm <= terms * (m - 1),
                            m >= 1,
                            q < -terms,
                            terms >= 0,
                    ;
                }
            }
            return None;
        }
    }
    proof {
        assert(cols@.take(whole as int) =~= high);
        let t = weigh(cols@);
        assert(t == (q + carry) * unit + rem) by (nonlinear_arith)
            requires
                t == q * unit + (carry * unit + rem),
        ;
        lemma_round_from_floor(t, unit, q + carry, rem);
        if whole < n {
            let w1 = pow10((n - whole - 1) as nat);
            lemma_pow10_positive((n - whole - 1) as nat);
            assert(unit == 10 * w1);
            assert((2 * rem >= unit) == (top >= 5)) by (nonlinear_arith)
                requires
                    rem == top * w1 + rest,
                    0 <= rest < w1,
                    unit == 10 * w1,
                    0 <= top <= 9,
            ;
            assert((2 * rem > unit) == (top > 5 || (top == 5 && rest > 0))) by (nonlinear_arith)
                requires
                    rem == top * w1 + rest,
                    0 <= rest < w1,
                    unit == 10 * w1,
                    0 <= top <= 9,
            ;
        } else {
            assert(unit == 1);
        }
    }
    let floor: i128 = q + carry;
    let up: bool = if floor >= 0 {
        top >= 5
    } else {
        top > 5 || (top == 5 && below)
    };
    let c: i128 = if up {
        floor + 1
    } else {
        floor
    };
    if -(MAX_TYPED_CENTS as i128) <= c && c <= MAX_TYPED_CENTS as i128 {
        Some(c as i64)
    } else {
        None
    }
}

} // verus!
