use vstd::prelude::*;
use vstd::arithmetic::div_mod::{
    lemma_fundamental_div_mod, lemma_mod_multiples_basic, lemma_mod_self_0,
    lemma_div_multiples_vanish, lemma_truncate_middle,
};

verus! {

/// Absolute value of a mathematical integer.
pub open spec fn abs_val(x: int) -> int {
    if x < 0 {
        -x
    } else {
        x
    }
}

/// Greatest common divisor, by Euclid's recursion. `gcd(0, 0) == 0`.
pub open spec fn gcd(a: nat, b: nat) -> nat
    decreases b,
{
    if b == 0 {
        a
    } else {
        gcd(b, a % b)
    }
}

/// The gcd divides both arguments and is positive as soon as one of them is.
pub proof fn lemma_gcd_divides(a: nat, b: nat)
    ensures
        a > 0 || b > 0 ==> gcd(a, b) > 0,
        gcd(a, b) > 0 ==> a as int % (gcd(a, b) as int) == 0 && b as int % (gcd(a, b) as int) == 0,
    decreases b,
{
    if b == 0 {
        if a > 0 {
            lemma_mod_self_0(a as int);
            assert(b as int % (a as int) == 0);
        }
    } else {
        let r = a % b;
        lemma_gcd_divides(b, r);
        let g = gcd(b, r);
        assert(gcd(a, b) == g);
        if r == 0 {
            assert(g == gcd(b, 0) == b);
            lemma_mod_self_0(b as int);
        } else {
            assert(g > 0);
            lemma_fundamental_div_mod(a as int, b as int);
            lemma_fundamental_div_mod(b as int, g as int);
            lemma_fundamental_div_mod(r as int, g as int);
            let qb = b as int / g as int;
            let qr = r as int / g as int;
            let qa = a as int / b as int;
            assert(a as int == g as int * (qb * qa + qr)) by (nonlinear_arith)
                requires
                    a as int == (b as int) * qa + r as int,
                    b as int == (g as int) * qb,
                    r as int == (g as int) * qr,
            ;
            lemma_mod_multiples_basic(qb * qa + qr, g as int);
            assert((qb * qa + qr) * g as int == g as int * (qb * qa + qr)) by (nonlinear_arith);
        }
    }
}

/// A common positive factor scales the gcd: `gcd(k*a, k*b) == k * gcd(a, b)`.
pub proof fn lemma_gcd_scale(k: nat, a: nat, b: nat)
    requires
        k > 0,
    ensures
        gcd((k * a) as nat, (k * b) as nat) == k * gcd(a, b),
    decreases b,
{
    if b == 0 {
        assert(k * b == 0) by (nonlinear_arith)
            requires
                b == 0,
        ;
    } else {
        assert(k * b > 0) by (nonlinear_arith)
            requires
                k > 0,
                b > 0,
        ;
        lemma_truncate_middle(a as int, k as int, b as int);
        assert((k * a) as int % (k * b) as int == (k * (a % b)) as int);
        lemma_gcd_scale(k, b, a % b);
        assert(gcd((k * a) as nat, (k * b) as nat) == gcd((k * b) as nat, (k * (a % b)) as nat));
    }
}

/// Dividing both arguments by their gcd leaves coprime values.
pub proof fn lemma_gcd_reduced(a: nat, b: nat)
    requires
        b > 0,
    ensures
        gcd(a, b) > 0,
        a as int % (gcd(a, b) as int) == 0,
        b as int % (gcd(a, b) as int) == 0,
        gcd((a as int / gcd(a, b) as int) as nat, (b as int / gcd(a, b) as int) as nat) == 1,
    decreases b,
{
    lemma_gcd_divides(a, b);
    let g = gcd(a, b);
    lemma_fundamental_div_mod(a as int, g as int);
    lemma_fundamental_div_mod(b as int, g as int);
    let qa = (a as int / g as int) as nat;
    let qb = (b as int / g as int) as nat;
    assert(a as int == g as int * qa as int);
    assert(b as int == g as int * qb as int);
    assert(g * qa == a && g * qb == b) by (nonlinear_arith)
        requires
            a as int == g as int * qa as int,
            b as int == g as int * qb as int,
    ;
    lemma_gcd_scale(g, qa, qb);
    assert(g * gcd(qa, qb) == g);
    assert(gcd(qa, qb) == 1) by (nonlinear_arith)
        requires
            g > 0,
            g * gcd(qa, qb) == g,
    ;
}

/// Sign-normalized numerator: the numerator carries the sign once the
/// denominator is made positive.
pub open spec fn norm_n(n: int, d: int) -> int {
    if d < 0 {
        -n
    } else {
        n
    }
}

/// The positive gcd used to reduce the pair `n / d`.
pub open spec fn red_g(n: int, d: int) -> int {
    gcd(abs_val(n) as nat, abs_val(d) as nat) as int
}

/// Numerator of `n / d` in lowest terms with a positive denominator.
pub open spec fn red_num(n: int, d: int) -> int {
    norm_n(n, d) / red_g(n, d)
}

/// Denominator of `n / d` in lowest terms (always positive when `d != 0`).
pub open spec fn red_den(n: int, d: int) -> int {
    abs_val(d) / red_g(n, d)
}

/// Whether the reduced form of `n / d` fits in the machine representation.
pub open spec fn frac_fits(n: int, d: int) -> bool {
    &&& d != 0
    &&& i64::MIN <= red_num(n, d) <= i64::MAX
    &&& red_den(n, d) <= i64::MAX
}

/// An exact rational number: always stored in lowest terms with a positive
/// denominator.
#[derive(Clone, Copy, Debug)]
pub struct Fraction {
    numerator: i64,
    denominator: i64,
}

/// How an `Option<Fraction>` result relates to the mathematical value `n / d`:
/// `Some` carries exactly the reduced form, `None` means the reduced form does
/// not fit in the machine representation.
pub open spec fn frac_opt_matches(r: Option<Fraction>, n: int, d: int) -> bool {
    match r {
        Some(f) => frac_fits(n, d) && f.num() == red_num(n, d) && f.den() == red_den(n, d),
        None => !frac_fits(n, d),
    }
}

impl Fraction {
    /// The mathematical numerator.
    pub closed spec fn num(self) -> int {
        self.numerator as int
    }

    /// The mathematical denominator.
    pub closed spec fn den(self) -> int {
        self.denominator as int
    }

    /// Lowest terms, positive denominator.
    pub open spec fn is_reduced(self) -> bool {
        self.den() > 0 && gcd(abs_val(self.num()) as nat, self.den() as nat) == 1
    }

    #[verifier::type_invariant]
    closed spec fn inv(self) -> bool {
        self.is_reduced()
    }

    /// Whether this fraction is a mathematical integer.
    pub open spec fn is_int(self) -> bool {
        self.den() == 1
    }

    /// The two fractions denote the same rational number (cross-multiplication).
    pub open spec fn same_ratio(self, other: Fraction) -> bool {
        self.num() * other.den() == other.num() * self.den()
    }

    pub fn numerator(&self) -> (r: i64)
        ensures
            r == self.num(),
            self.is_reduced(),
    {
        proof {
            use_type_invariant(self);
        }
        self.numerator
    }

    pub fn denominator(&self) -> (r: i64)
        ensures
            r == self.den(),
            self.is_reduced(),
    {
        proof {
            use_type_invariant(self);
        }
        self.denominator
    }

    /// Build the reduced fraction `n / d`, reporting `None` when `d` is zero or
    /// the reduced form overflows an `i64`.
    pub fn try_new(n: i64, d: i64) -> (r: Option<Fraction>)
        ensures
            d != 0 ==> frac_opt_matches(r, n as int, d as int),
            d == 0 ==> r is None,
            r matches Some(f) ==> f.is_reduced(),
    {
        if d == 0 {
            return None;
        }
        let mut nn: i128 = n as i128;
        let mut dd: i128 = d as i128;
        if dd < 0 {
            nn = -nn;
            dd = -dd;
        }
        proof {
            assert(nn == norm_n(n as int, d as int));
            assert(dd == abs_val(d as int));
        }
        Self::reduce128(nn, dd)
    }

    /// Build the reduced fraction `n / d`. The excluded extreme values go
    /// through `try_new`, which reports the overflow instead.
    pub fn new(n: i64, d: i64) -> (r: Fraction)
        requires
            d != 0,
            n != i64::MIN,
            d != i64::MIN,
        ensures
            r.is_reduced(),
            r.num() == red_num(n as int, d as int),
            r.den() == red_den(n as int, d as int),
            r.num() * d == n * r.den(),
    {
        proof {
            lemma_red_vals(n as int, d as int);
            lemma_red_fits(n as int, d as int);
        }
        let r = Self::try_new(n, d);
        match r {
            Some(f) => f,
            None => {
                proof {
                    assert(false);
                }
                Fraction { numerator: 0, denominator: 1 }
            },
        }
    }

    /// Core reducing constructor over sign-normalized 128-bit values.
    fn reduce128(nn: i128, dd: i128) -> (r: Option<Fraction>)
        requires
            dd > 0,
            nn > i128::MIN,
        ensures
            frac_opt_matches(r, nn as int, dd as int),
            r matches Some(f) ==> f.is_reduced(),
    {
        let na: u128 = if nn < 0 {
            (-nn) as u128
        } else {
            nn as u128
        };
        let da: u128 = dd as u128;
        proof {
            assert(na == abs_val(nn as int));
            assert(da == abs_val(dd as int));
            lemma_gcd_reduced(na as nat, da as nat);
        }
        let g = gcd_u128(na, da);
        let ghost gi = g as int;
        proof {
            lemma_fundamental_div_mod(na as int, gi);
            lemma_fundamental_div_mod(da as int, gi);
        }
        let rn = na / g;
        let rd = da / g;
        proof {
            assert(rd == red_den(nn as int, dd as int));
            assert(rd >= 1) by (nonlinear_arith)
                requires
                    da as int == gi * (rd as int),
                    da > 0,
                    gi > 0,
            ;
            if nn >= 0 {
                assert(rn == red_num(nn as int, dd as int));
            } else {
                lemma_div_multiples_vanish(-(rn as int), gi);
                assert(gi * -(rn as int) == -(gi * (rn as int))) by (nonlinear_arith);
                assert(nn as int == gi * -(rn as int));
                assert(red_num(nn as int, dd as int) == -(rn as int));
            }
            assert(gcd(rn as nat, rd as nat) == 1);
        }
        if rd > 0x7fff_ffff_ffff_ffff_u128 {
            return None;
        }
        if nn < 0 {
            if rn > 0x8000_0000_0000_0000_u128 {
                return None;
            }
            let num: i64 = if rn == 0x8000_0000_0000_0000_u128 {
                i64::MIN
            } else {
                -(rn as i64)
            };
            proof {
                assert(num as int == -(rn as int));
                assert(abs_val(num as int) == rn as int);
            }
            Some(Fraction { numerator: num, denominator: rd as i64 })
        } else {
            if rn > 0x7fff_ffff_ffff_ffff_u128 {
                return None;
            }
            Some(Fraction { numerator: rn as i64, denominator: rd as i64 })
        }
    }

    /// Exact sum; `None` when the reduced result overflows.
    pub fn add(&self, other: &Fraction) -> (r: Option<Fraction>)
        ensures
            frac_opt_matches(
                r,
                self.num() * other.den() + other.num() * self.den(),
                self.den() * other.den(),
            ),
            r matches Some(f) ==> f.is_reduced(),
    {
        proof {
            use_type_invariant(self);
            use_type_invariant(other);
            lemma_num_den_prod(self.num(), other.den());
            lemma_num_den_prod(other.num(), self.den());
            lemma_i64_prod_bounds(self.den(), other.den());
            assert(self.den() * other.den() > 0) by (nonlinear_arith)
                requires
                    self.den() > 0,
                    other.den() > 0,
            ;
        }
        let nn: i128 = (self.numerator as i128) * (other.denominator as i128) + (other.numerator
            as i128) * (self.denominator as i128);
        let dd: i128 = (self.denominator as i128) * (other.denominator as i128);
        Self::reduce128(nn, dd)
    }

    /// Exact difference; `None` when the reduced result overflows.
    pub fn sub(&self, other: &Fraction) -> (r: Option<Fraction>)
        ensures
            frac_opt_matches(
                r,
                self.num() * other.den() - other.num() * self.den(),
                self.den() * other.den(),
            ),
            r matches Some(f) ==> f.is_reduced(),
    {
        proof {
            use_type_invariant(self);
            use_type_invariant(other);
            lemma_num_den_prod(self.num(), other.den());
            lemma_num_den_prod(other.num(), self.den());
            lemma_i64_prod_bounds(self.den(), other.den());
            assert(self.den() * other.den() > 0) by (nonlinear_arith)
                requires
                    self.den() > 0,
                    other.den() > 0,
            ;
        }
        let nn: i128 = (self.numerator as i128) * (other.denominator as i128) - (other.numerator
            as i128) * (self.denominator as i128);
        let dd: i128 = (self.denominator as i128) * (other.denominator as i128);
        Self::reduce128(nn, dd)
    }

    /// Exact product; `None` when the reduced result overflows.
    pub fn mul(&self, other: &Fraction) -> (r: Option<Fraction>)
        ensures
            frac_opt_matches(r, self.num() * other.num(), self.den() * other.den()),
            r matches Some(f) ==> f.is_reduced(),
    {
        proof {
            use_type_invariant(self);
            use_type_invariant(other);
            lemma_i64_prod_bounds(self.num(), other.num());
            lemma_i64_prod_bounds(self.den(), other.den());
            assert(self.den() * other.den() > 0) by (nonlinear_arith)
                requires
                    self.den() > 0,
                    other.den() > 0,
            ;
        }
        let nn: i128 = (self.numerator as i128) * (other.numerator as i128);
        let dd: i128 = (self.denominator as i128) * (other.denominator as i128);
        Self::reduce128(nn, dd)
    }

    /// Exact quotient; the caller must rule out division by zero.
    pub fn div(&self, other: &Fraction) -> (r: Option<Fraction>)
        requires
            other.num() != 0,
        ensures
            frac_opt_matches(r, self.num() * other.den(), self.den() * other.num()),
            r matches Some(f) ==> f.is_reduced(),
    {
        proof {
            use_type_invariant(self);
            use_type_invariant(other);
            lemma_i64_prod_bounds(self.num(), other.den());
            lemma_i64_prod_bounds(self.den(), other.num());
            assert(self.den() * other.num() != 0) by (nonlinear_arith)
                requires
                    self.den() > 0,
                    other.num() != 0,
            ;
        }
        let mut nn: i128 = (self.numerator as i128) * (other.denominator as i128);
        let mut dd: i128 = (self.denominator as i128) * (other.numerator as i128);
        if dd < 0 {
            nn = -nn;
            dd = -dd;
        }
        proof {
            let n0 = self.num() * other.den();
            let d0 = self.den() * other.num();
            assert(nn == norm_n(n0, d0));
            assert(dd == abs_val(d0));
            lemma_red_norm_invariant(n0, d0);
        }
        Self::reduce128(nn, dd)
    }

    /// Strictly greater, by cross-multiplication.
    pub fn gt(&self, other: &Fraction) -> (r: bool)
        ensures
            r == (self.num() * other.den() > other.num() * self.den()),
    {
        proof {
            use_type_invariant(self);
            use_type_invariant(other);
            lemma_i64_prod_bounds(self.num(), other.den());
            lemma_i64_prod_bounds(other.num(), self.den());
        }
        (self.numerator as i128) * (other.denominator as i128) > (other.numerator as i128)
            * (self.denominator as i128)
    }

    /// Greater or equal, by cross-multiplication.
    pub fn ge(&self, other: &Fraction) -> (r: bool)
        ensures
            r == (self.num() * other.den() >= other.num() * self.den()),
    {
        proof {
            use_type_invariant(self);
            use_type_invariant(other);
            lemma_i64_prod_bounds(self.num(), other.den());
            lemma_i64_prod_bounds(other.num(), self.den());
        }
        (self.numerator as i128) * (other.denominator as i128) >= (other.numerator as i128)
            * (self.denominator as i128)
    }

    /// Equal as rational numbers, by cross-multiplication.
    pub fn eq(&self, other: &Fraction) -> (r: bool)
        ensures
            r == (self.num() * other.den() == other.num() * self.den()),
    {
        proof {
            use_type_invariant(self);
            use_type_invariant(other);
            lemma_i64_prod_bounds(self.num(), other.den());
            lemma_i64_prod_bounds(other.num(), self.den());
        }
        (self.numerator as i128) * (other.denominator as i128) == (other.numerator as i128)
            * (self.denominator as i128)
    }

    /// Strictly smaller, by cross-multiplication.
    pub fn lt(&self, other: &Fraction) -> (r: bool)
        ensures
            r == (self.num() * other.den() < other.num() * self.den()),
    {
        proof {
            use_type_invariant(self);
            use_type_invariant(other);
            lemma_i64_prod_bounds(self.num(), other.den());
            lemma_i64_prod_bounds(other.num(), self.den());
        }
        (self.numerator as i128) * (other.denominator as i128) < (other.numerator as i128)
            * (self.denominator as i128)
    }

    /// Smaller or equal, by cross-multiplication.
    pub fn le(&self, other: &Fraction) -> (r: bool)
        ensures
            r == (self.num() * other.den() <= other.num() * self.den()),
    {
        proof {
            use_type_invariant(self);
            use_type_invariant(other);
            lemma_i64_prod_bounds(self.num(), other.den());
            lemma_i64_prod_bounds(other.num(), self.den());
        }
        (self.numerator as i128) * (other.denominator as i128) <= (other.numerator as i128)
            * (self.denominator as i128)
    }
}

/// Euclid's algorithm on machine integers.
fn gcd_u128(a: u128, b: u128) -> (g: u128)
    ensures
        g as nat == gcd(a as nat, b as nat),
{
    let mut x = a;
    let mut y = b;
    while y != 0
        invariant
            gcd(x as nat, y as nat) == gcd(a as nat, b as nat),
        decreases y,
    {
        let r = x % y;
        x = y;
        y = r;
    }
    x
}

/// A product of an `i64` numerator and a positive `i64` denominator stays
/// far enough inside the `i128` range that two of them can be added.
proof fn lemma_num_den_prod(a: int, b: int)
    requires
        i64::MIN <= a <= i64::MAX,
        1 <= b <= i64::MAX,
    ensures
        -0x3fff_ffff_ffff_ffff_8000_0000_0000_0000 <= a * b
            <= 0x3fff_ffff_ffff_ffff_8000_0000_0000_0000,
{
    assert(-0x3fff_ffff_ffff_ffff_8000_0000_0000_0000 <= a * b
        <= 0x3fff_ffff_ffff_ffff_8000_0000_0000_0000) by (nonlinear_arith)
        requires
            -0x8000_0000_0000_0000 <= a <= 0x7fff_ffff_ffff_ffff,
            1 <= b <= 0x7fff_ffff_ffff_ffff,
    ;
}

/// A product of two `i64` values stays strictly inside the `i128` range.
proof fn lemma_i64_prod_bounds(a: int, b: int)
    requires
        i64::MIN <= a <= i64::MAX,
        i64::MIN <= b <= i64::MAX,
    ensures
        -0x4000_0000_0000_0000_0000_0000_0000_0000 <= a * b
            <= 0x4000_0000_0000_0000_0000_0000_0000_0000,
{
    assert(-0x4000_0000_0000_0000_0000_0000_0000_0000 <= a * b
        <= 0x4000_0000_0000_0000_0000_0000_0000_0000) by (nonlinear_arith)
        requires
            -0x8000_0000_0000_0000 <= a <= 0x7fff_ffff_ffff_ffff,
            -0x8000_0000_0000_0000 <= b <= 0x7fff_ffff_ffff_ffff,
    ;
}

/// Reduction does not care about the sign normalization of its input pair.
proof fn lemma_red_norm_invariant(n: int, d: int)
    requires
        d != 0,
    ensures
        red_num(n, d) == red_num(norm_n(n, d), abs_val(d)),
        red_den(n, d) == red_den(norm_n(n, d), abs_val(d)),
{
    assert(abs_val(norm_n(n, d)) == abs_val(n));
    assert(abs_val(abs_val(d)) == abs_val(d));
}

/// Size, sign, ratio and coprimality facts about the reduced form.
pub proof fn lemma_red_vals(n: int, d: int)
    requires
        d != 0,
    ensures
        1 <= red_den(n, d) <= abs_val(d),
        abs_val(red_num(n, d)) <= abs_val(n),
        red_num(n, d) * d == n * red_den(n, d),
        gcd(abs_val(red_num(n, d)) as nat, red_den(n, d) as nat) == 1,
{
    let na = abs_val(n) as nat;
    let da = abs_val(d) as nat;
    lemma_gcd_reduced(na, da);
    let g = gcd(na, da) as int;
    lemma_fundamental_div_mod(na as int, g);
    lemma_fundamental_div_mod(da as int, g);
    let qn = na as int / g;
    let qd = da as int / g;
    assert(na as int == g * qn);
    assert(da as int == g * qd);
    assert(qn >= 0 && qn <= na as int && 1 <= qd <= da as int) by (nonlinear_arith)
        requires
            na as int == g * qn,
            da as int == g * qd,
            g >= 1,
            da > 0,
            na >= 0,
    ;
    lemma_div_multiples_vanish(-qn, g);
    lemma_div_multiples_vanish(qn, g);
    assert(g * -qn == -(g * qn)) by (nonlinear_arith);
    assert(red_den(n, d) == qd);
    if norm_n(n, d) >= 0 {
        assert(abs_val(norm_n(n, d)) == na as int);
        assert(norm_n(n, d) == g * qn);
        assert(red_num(n, d) == qn);
    } else {
        assert(abs_val(norm_n(n, d)) == na as int);
        assert(norm_n(n, d) == -(na as int));
        assert(norm_n(n, d) == g * -qn);
        assert(red_num(n, d) == -qn);
    }
    assert(abs_val(red_num(n, d)) == qn);
    if d < 0 {
        assert(norm_n(n, d) == -n);
        assert(red_num(n, d) * d == n * red_den(n, d)) by (nonlinear_arith)
            requires
                red_num(n, d) == -(norm_n(n, d) * -1) / 1 || true,
                norm_n(n, d) == -n,
                norm_n(n, d) == g * (if norm_n(n, d) >= 0 { qn } else { -qn }),
                red_num(n, d) == (if norm_n(n, d) >= 0 { qn } else { -qn }),
                d == -(g * qd),
                red_den(n, d) == qd,
        ;
    } else {
        assert(norm_n(n, d) == n);
        assert(red_num(n, d) * d == n * red_den(n, d)) by (nonlinear_arith)
            requires
                norm_n(n, d) == n,
                norm_n(n, d) == g * (if norm_n(n, d) >= 0 { qn } else { -qn }),
                red_num(n, d) == (if norm_n(n, d) >= 0 { qn } else { -qn }),
                d == g * qd,
                red_den(n, d) == qd,
        ;
    }
}

/// Away from the extreme `i64` values the reduced form always fits.
proof fn lemma_red_fits(n: int, d: int)
    requires
        d != 0,
        i64::MIN < n <= i64::MAX,
        i64::MIN < d <= i64::MAX,
    ensures
        frac_fits(n, d),
{
    lemma_red_vals(n, d);
}

} // verus!
