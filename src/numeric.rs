use vstd::prelude::*;

verus! {

/// The largest scale an amount read from storage or from a request may carry.
pub const MAX_SCALE: u32 = 28;

/// The finest scale the library works at: the product of two amounts of at
/// most `MAX_SCALE` digits each is still exact at this scale.
pub const UNIT_SCALE: u32 = 56;

pub open spec fn pow10(n: nat) -> int
    decreases n,
{
    if n == 0 {
        1
    } else {
        10 * pow10((n - 1) as nat)
    }
}

pub open spec fn fits(x: int) -> bool {
    i128::MIN <= x <= i128::MAX
}

/// A signed decimal amount: `mantissa * 10^(-scale)`.
#[derive(Clone, Copy, Debug)]
pub struct Numeric {
    pub mantissa: i128,
    pub scale: u32,
}

impl Numeric {
    pub open spec fn wf(self) -> bool {
        self.scale <= UNIT_SCALE
    }

    /// The exact value, counted in units of `10^(-UNIT_SCALE)`.
    pub open spec fn units(self) -> int {
        self.mantissa * pow10((UNIT_SCALE - self.scale) as nat)
    }

    /// The mantissa written at scale `s`.
    pub open spec fn aligned(self, s: nat) -> int {
        self.mantissa * pow10((s - self.scale) as nat)
    }

    /// The scale at which `a` and `b` are combined.
    pub open spec fn common_scale(a: Numeric, b: Numeric) -> nat {
        if a.scale >= b.scale {
            a.scale as nat
        } else {
            b.scale as nat
        }
    }

    /// Whether `a - b`, and both operands, can be written at their common scale.
    pub open spec fn sub_fits(a: Numeric, b: Numeric) -> bool {
        let c = Numeric::common_scale(a, b);
        fits(a.aligned(c)) && fits(b.aligned(c)) && fits(a.aligned(c) - b.aligned(c))
    }

    /// Whether `a + b`, and both operands, can be written at their common scale.
    pub open spec fn add_fits(a: Numeric, b: Numeric) -> bool {
        let c = Numeric::common_scale(a, b);
        fits(a.aligned(c)) && fits(b.aligned(c)) && fits(a.aligned(c) + b.aligned(c))
    }

    /// The exact value of `a * b` in units, for scales that add up to at most `UNIT_SCALE`.
    pub open spec fn product_units(a: Numeric, b: Numeric) -> int {
        a.mantissa * b.mantissa * pow10((UNIT_SCALE - a.scale - b.scale) as nat)
    }

    /// The exact difference written at the common scale, where it fits.
    pub open spec fn difference(a: Numeric, b: Numeric) -> Numeric {
        let c = Numeric::common_scale(a, b);
        Numeric { mantissa: (a.aligned(c) - b.aligned(c)) as i128, scale: c as u32 }
    }

    /// The exact sum written at the common scale, where it fits.
    pub open spec fn sum(a: Numeric, b: Numeric) -> Numeric {
        let c = Numeric::common_scale(a, b);
        Numeric { mantissa: (a.aligned(c) + b.aligned(c)) as i128, scale: c as u32 }
    }

    /// The exact product, where its mantissa fits.
    pub open spec fn product(a: Numeric, b: Numeric) -> Numeric {
        Numeric { mantissa: (a.mantissa * b.mantissa) as i128, scale: (a.scale + b.scale) as u32 }
    }

    pub fn new(mantissa: i128, scale: u32) -> (r: Numeric)
        requires
            scale <= UNIT_SCALE,
        ensures
            r.mantissa == mantissa,
            r.scale == scale,
            r.wf(),
    {
        Numeric { mantissa, scale }
    }

    /// A whole number.
    pub fn from_int(i: i64) -> (r: Numeric)
        ensures
            r.wf(),
            r.mantissa == i,
            r.scale == 0,
            r.units() == i * pow10(UNIT_SCALE as nat),
    {
        Numeric { mantissa: i as i128, scale: 0 }
    }

    pub fn zero() -> (r: Numeric)
        ensures
            r.wf(),
            r.units() == 0,
            r.mantissa == 0,
            r.scale == 0,
    {
        Numeric { mantissa: 0, scale: 0 }
    }

    pub fn is_positive(&self) -> (r: bool)
        requires
            self.wf(),
        ensures
            r == (self.units() > 0),
    {
        proof {
            lemma_sign_of_units(*self);
        }
        self.mantissa > 0
    }

    pub fn is_negative(&self) -> (r: bool)
        requires
            self.wf(),
        ensures
            r == (self.units() < 0),
    {
        proof {
            lemma_sign_of_units(*self);
        }
        self.mantissa < 0
    }

    /// The same value with the trailing zeros of the mantissa dropped.
    pub fn normalize(&self) -> (r: Numeric)
        requires
            self.wf(),
        ensures
            r.wf(),
            r.units() == self.units(),
            r.scale <= self.scale,
            r.scale == 0 || r.mantissa % 10 != 0,
    {
        let mut m: i128 = self.mantissa;
        let mut s: u32 = self.scale;
        while s > 0 && m % 10 == 0
            invariant
                s <= self.scale <= UNIT_SCALE,
                (Numeric { mantissa: m, scale: s }).units() == self.units(),
            decreases s,
        {
            proof {
                let q = m / 10;
                assert(m == q * 10) by (nonlinear_arith)
                    requires
                        m % 10 == 0,
                        q == m / 10,
                ;
                let k = (UNIT_SCALE - s) as nat;
                assert(pow10(k + 1) == 10 * pow10(k));
                assert((UNIT_SCALE - (s - 1)) as nat == k + 1);
                vstd::arithmetic::mul::lemma_mul_is_associative(q as int, 10, pow10(k));
            }
            m = m / 10;
            s = s - 1;
        }
        Numeric { mantissa: m, scale: s }
    }

    /// Compares by value, whatever the two scales.
    pub fn le(&self, other: &Numeric) -> (r: bool)
        requires
            self.wf(),
            other.wf(),
        ensures
            r == (self.units() <= other.units()),
    {
        proof {
            lemma_units_order(*self, *other);
            if self.scale <= other.scale {
                lemma_pow10_positive((other.scale - self.scale) as nat);
                lemma_sign_mul(self.mantissa as int, pow10((other.scale - self.scale) as nat));
            } else {
                lemma_pow10_positive((self.scale - other.scale) as nat);
                lemma_sign_mul(other.mantissa as int, pow10((self.scale - other.scale) as nat));
            }
        }
        if self.scale <= other.scale {
            match align(self.mantissa, other.scale - self.scale) {
                Some(a) => a <= other.mantissa,
                None => self.mantissa < 0,
            }
        } else {
            match align(other.mantissa, self.scale - other.scale) {
                Some(b) => self.mantissa <= b,
                None => other.mantissa > 0,
            }
        }
    }

    pub fn lt(&self, other: &Numeric) -> (r: bool)
        requires
            self.wf(),
            other.wf(),
        ensures
            r == (self.units() < other.units()),
    {
        !other.le(self)
    }

    /// Exact product; `None` where the mantissa of the product leaves `i128`.
    pub fn checked_mul(&self, other: &Numeric) -> (r: Option<Numeric>)
        requires
            self.scale + other.scale <= UNIT_SCALE,
        ensures
            r is Some <==> fits(self.mantissa * other.mantissa),
            r matches Some(p) ==> p.wf() && p.mantissa == self.mantissa * other.mantissa
                && p.scale == self.scale + other.scale && p.units() == Numeric::product_units(
                *self,
                *other,
            ),
    {
        match self.mantissa.checked_mul(other.mantissa) {
            Some(m) => Some(Numeric { mantissa: m, scale: self.scale + other.scale }),
            None => None,
        }
    }

    /// Exact difference at the common scale; `None` where it does not fit.
    pub fn checked_sub(&self, other: &Numeric) -> (r: Option<Numeric>)
        requires
            self.wf(),
            other.wf(),
        ensures
            r is Some <==> Numeric::sub_fits(*self, *other),
            r matches Some(d) ==> d.wf() && d.units() == self.units() - other.units()
                && d.scale == Numeric::common_scale(*self, *other) && d.mantissa == self.aligned(
                Numeric::common_scale(*self, *other),
            ) - other.aligned(Numeric::common_scale(*self, *other)),
    {
        let c = if self.scale >= other.scale {
            self.scale
        } else {
            other.scale
        };
        let a = align(self.mantissa, c - self.scale);
        let b = align(other.mantissa, c - other.scale);
        match (a, b) {
            (Some(x), Some(y)) => match x.checked_sub(y) {
                Some(m) => {
                    let d = Numeric { mantissa: m, scale: c };
                    proof {
                        lemma_aligned_units(*self, c as nat);
                        lemma_aligned_units(*other, c as nat);
                        lemma_aligned_units(d, c as nat);
                        assert(d.aligned(c as nat) == m) by {
                            assert(pow10(0) == 1);
                            vstd::arithmetic::mul::lemma_mul_basics(m as int);
                        }
                        vstd::arithmetic::mul::lemma_mul_is_distributive_sub_other_way(
                            pow10((UNIT_SCALE - c) as nat),
                            x as int,
                            y as int,
                        );
                    }
                    Some(d)
                },
                None => None,
            },
            _ => None,
        }
    }

    /// Exact sum at the common scale; `None` where it does not fit.
    pub fn checked_add(&self, other: &Numeric) -> (r: Option<Numeric>)
        requires
            self.wf(),
            other.wf(),
        ensures
            r is Some <==> Numeric::add_fits(*self, *other),
            r matches Some(d) ==> d.wf() && d.units() == self.units() + other.units()
                && d.scale == Numeric::common_scale(*self, *other) && d.mantissa == self.aligned(
                Numeric::common_scale(*self, *other),
            ) + other.aligned(Numeric::common_scale(*self, *other)),
    {
        let c = if self.scale >= other.scale {
            self.scale
        } else {
            other.scale
        };
        let a = align(self.mantissa, c - self.scale);
        let b = align(other.mantissa, c - other.scale);
        match (a, b) {
            (Some(x), Some(y)) => match x.checked_add(y) {
                Some(m) => {
                    let d = Numeric { mantissa: m, scale: c };
                    proof {
                        lemma_aligned_units(*self, c as nat);
                        lemma_aligned_units(*other, c as nat);
                        lemma_aligned_units(d, c as nat);
                        assert(d.aligned(c as nat) == m) by {
                            assert(pow10(0) == 1);
                            vstd::arithmetic::mul::lemma_mul_basics(m as int);
                        }
                        vstd::arithmetic::mul::lemma_mul_is_distributive_add_other_way(
                            pow10((UNIT_SCALE - c) as nat),
                            x as int,
                            y as int,
                        );
                    }
                    Some(d)
                },
                None => None,
            },
            _ => None,
        }
    }
}

/// `m * 10^k`, or `None` where that leaves `i128`.
fn align(m: i128, k: u32) -> (r: Option<i128>)
    ensures
        r is Some <==> fits(m * pow10(k as nat)),
        r matches Some(v) ==> v == m * pow10(k as nat),
{
    let mut acc: i128 = m;
    let mut i: u32 = 0;
    assert(m * pow10(0) == m) by {
        assert(pow10(0) == 1);
    }
    while i < k
        invariant
            i <= k,
            acc == m * pow10(i as nat),
        decreases k - i,
    {
        assert(m * pow10((i + 1) as nat) == acc * 10) by {
            assert(pow10((i + 1) as nat) == 10 * pow10(i as nat));
            vstd::arithmetic::mul::lemma_mul_is_associative(m as int, pow10(i as nat), 10);
        }
        match acc.checked_mul(10) {
            Some(v) => {
                acc = v;
                i = i + 1;
            },
            None => {
                proof {
                    lemma_overflow_grows(m as int, (i + 1) as nat, k as nat);
                }
                return None;
            },
        }
    }
    Some(acc)
}

pub proof fn lemma_pow10_positive(n: nat)
    ensures
        pow10(n) >= 1,
    decreases n,
{
    if n > 0 {
        lemma_pow10_positive((n - 1) as nat);
    }
}

pub proof fn lemma_pow10_add(a: nat, b: nat)
    ensures
        pow10(a + b) == pow10(a) * pow10(b),
    decreases a,
{
    if a > 0 {
        lemma_pow10_add((a - 1) as nat, b);
        assert(pow10(a + b) == 10 * pow10((a - 1 + b) as nat));
        vstd::arithmetic::mul::lemma_mul_is_associative(10, pow10((a - 1) as nat), pow10(b));
    }
}

/// Once `m * 10^i` has left `i128`, so has `m * 10^k` for every `k >= i`.
proof fn lemma_overflow_grows(m: int, i: nat, k: nat)
    requires
        i <= k,
        !fits(m * pow10(i)),
    ensures
        !fits(m * pow10(k)),
{
    lemma_pow10_add(i, (k - i) as nat);
    lemma_pow10_positive((k - i) as nat);
    let x = m * pow10(i);
    let y = pow10((k - i) as nat);
    vstd::arithmetic::mul::lemma_mul_is_associative(m, pow10(i), y);
    assert(x > i128::MAX ==> x * y >= x) by (nonlinear_arith)
        requires
            y >= 1,
    ;
    assert(x < i128::MIN ==> x * y <= x) by (nonlinear_arith)
        requires
            y >= 1,
    ;
}

proof fn lemma_sign_mul(m: int, p: int)
    requires
        p >= 1,
    ensures
        (m * p > 0) == (m > 0),
        (m * p < 0) == (m < 0),
{
    assert((m * p > 0) == (m > 0) && (m * p < 0) == (m < 0)) by (nonlinear_arith)
        requires
            p >= 1,
    ;
}

/// Rewriting at a finer scale keeps the value.
proof fn lemma_aligned_units(a: Numeric, c: nat)
    requires
        a.scale <= c <= UNIT_SCALE,
    ensures
        a.units() == a.aligned(c) * pow10((UNIT_SCALE - c) as nat),
{
    lemma_pow10_add((c - a.scale) as nat, (UNIT_SCALE - c) as nat);
    vstd::arithmetic::mul::lemma_mul_is_associative(
        a.mantissa as int,
        pow10((c - a.scale) as nat),
        pow10((UNIT_SCALE - c) as nat),
    );
}

pub proof fn lemma_sign_of_units(a: Numeric)
    requires
        a.wf(),
    ensures
        (a.units() > 0) == (a.mantissa > 0),
        (a.units() < 0) == (a.mantissa < 0),
        (a.units() == 0) == (a.mantissa == 0),
{
    let p = pow10((UNIT_SCALE - a.scale) as nat);
    lemma_pow10_positive((UNIT_SCALE - a.scale) as nat);
    let m = a.mantissa as int;
    assert((m * p > 0) == (m > 0) && (m * p < 0) == (m < 0)) by (nonlinear_arith)
        requires
            p >= 1,
    ;
}

/// The order of two values is the order of their mantissas at the common scale.
proof fn lemma_units_order(a: Numeric, b: Numeric)
    requires
        a.wf(),
        b.wf(),
    ensures
        (a.units() <= b.units()) == (a.aligned(Numeric::common_scale(a, b)) <= b.aligned(
            Numeric::common_scale(a, b),
        )),
        a.scale <= b.scale ==> a.aligned(b.scale as nat) == a.mantissa * pow10(
            (b.scale - a.scale) as nat,
        ) && b.aligned(b.scale as nat) == b.mantissa,
        b.scale < a.scale ==> b.aligned(a.scale as nat) == b.mantissa * pow10(
            (a.scale - b.scale) as nat,
        ) && a.aligned(a.scale as nat) == a.mantissa,
{
    let c = Numeric::common_scale(a, b);
    lemma_aligned_units(a, c);
    lemma_aligned_units(b, c);
    let p = pow10((UNIT_SCALE - c) as nat);
    lemma_pow10_positive((UNIT_SCALE - c) as nat);
    let x = a.aligned(c);
    let y = b.aligned(c);
    assert((x * p <= y * p) == (x <= y)) by (nonlinear_arith)
        requires
            p >= 1,
    ;
    assert(pow10(0) == 1);
}

/// The exact difference keeps the value.
pub proof fn lemma_difference_units(a: Numeric, b: Numeric)
    requires
        a.wf(),
        b.wf(),
        Numeric::sub_fits(a, b),
    ensures
        Numeric::difference(a, b).wf(),
        Numeric::difference(a, b).units() == a.units() - b.units(),
{
    let c = Numeric::common_scale(a, b);
    let d = Numeric::difference(a, b);
    lemma_aligned_units(a, c);
    lemma_aligned_units(b, c);
    lemma_aligned_units(d, c);
    assert(d.aligned(c) == d.mantissa) by {
        assert(pow10(0) == 1);
        vstd::arithmetic::mul::lemma_mul_basics(d.mantissa as int);
    }
    vstd::arithmetic::mul::lemma_mul_is_distributive_sub_other_way(
        pow10((UNIT_SCALE - c) as nat),
        a.aligned(c),
        b.aligned(c),
    );
}

/// The exact sum keeps the value.
pub proof fn lemma_sum_units(a: Numeric, b: Numeric)
    requires
        a.wf(),
        b.wf(),
        Numeric::add_fits(a, b),
    ensures
        Numeric::sum(a, b).wf(),
        Numeric::sum(a, b).units() == a.units() + b.units(),
{
    let c = Numeric::common_scale(a, b);
    let d = Numeric::sum(a, b);
    lemma_aligned_units(a, c);
    lemma_aligned_units(b, c);
    lemma_aligned_units(d, c);
    assert(d.aligned(c) == d.mantissa) by {
        assert(pow10(0) == 1);
        vstd::arithmetic::mul::lemma_mul_basics(d.mantissa as int);
    }
    vstd::arithmetic::mul::lemma_mul_is_distributive_add_other_way(
        pow10((UNIT_SCALE - c) as nat),
        a.aligned(c),
        b.aligned(c),
    );
}

/// The product of two positive amounts is positive.
pub proof fn lemma_product_positive(a: Numeric, b: Numeric)
    requires
        a.wf(),
        b.wf(),
        a.units() > 0,
        b.units() > 0,
        a.scale + b.scale <= UNIT_SCALE,
        fits(a.mantissa * b.mantissa),
    ensures
        Numeric::product(a, b).wf(),
        Numeric::product(a, b).units() > 0,
{
    lemma_sign_of_units(a);
    lemma_sign_of_units(b);
    let m = a.mantissa * b.mantissa;
    assert(m > 0) by (nonlinear_arith)
        requires
            a.mantissa > 0,
            b.mantissa > 0,
            m == a.mantissa * b.mantissa,
    ;
    lemma_sign_of_units(Numeric::product(a, b));
}

} // verus!
