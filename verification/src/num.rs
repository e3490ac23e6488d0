//! Exact fraction arithmetic on pairs of signed machine integers.
//!
//! The spec layer models the machine operations exactly: `rem_t` and `div_t`
//! are remainder and quotient as `%` and `/` compute them on signed integers
//! (magnitude Euclidean, sign by the usual truncation rules), and `gcd_t` is
//! Euclid's algorithm over those remainders, sign and all.

use vstd::prelude::*;
use vstd::arithmetic::div_mod::lemma_fundamental_div_mod;

verus! {

/// Magnitude of an integer.
pub open spec fn iabs(x: int) -> nat {
    if x >= 0 {
        x as nat
    } else {
        (-x) as nat
    }
}

/// Remainder as `%` computes it on signed machine integers: the magnitude is
/// the Euclidean remainder of the magnitudes, the sign follows the dividend.
pub open spec fn rem_t(a: int, b: int) -> int {
    let m = (iabs(a) as int) % (iabs(b) as int);
    if a >= 0 {
        m
    } else {
        -m
    }
}

/// Quotient as `/` computes it on signed machine integers (rounded toward
/// zero).
pub open spec fn div_t(a: int, b: int) -> int {
    let q = (iabs(a) as int) / (iabs(b) as int);
    if (a >= 0) == (b >= 0) {
        q
    } else {
        -q
    }
}

/// Greatest common divisor of two natural numbers, by Euclid.
pub open spec fn gcd_nat(a: nat, b: nat) -> nat
    decreases b,
{
    if b == 0 {
        a
    } else {
        gcd_nat(b, a % b)
    }
}

/// The value Euclid's algorithm computes when run with truncated remainders
/// on signed integers; its magnitude is `gcd_nat` of the magnitudes, but the
/// sign depends on the signs along the remainder chain.
pub open spec fn gcd_t(a: int, b: int) -> int
    decreases iabs(b),
{
    if b == 0 {
        a
    } else {
        gcd_t(b, rem_t(a, b))
    }
}

/// `d` divides `x`.
pub open spec fn divides(d: int, x: int) -> bool {
    exists|k: int| x == #[trigger] (d * k)
}

pub proof fn lemma_rem_t_abs(a: int, b: int)
    requires
        b != 0,
    ensures
        iabs(rem_t(a, b)) == iabs(a) % iabs(b),
        iabs(rem_t(a, b)) < iabs(b),
{
}

pub proof fn lemma_gcd_t_abs(a: int, b: int)
    ensures
        iabs(gcd_t(a, b)) == gcd_nat(iabs(a), iabs(b)),
    decreases iabs(b),
{
    if b != 0 {
        lemma_rem_t_abs(a, b);
        lemma_gcd_t_abs(b, rem_t(a, b));
    }
}

pub proof fn lemma_gcd_nat_divides(a: nat, b: nat)
    ensures
        divides(gcd_nat(a, b) as int, a as int),
        divides(gcd_nat(a, b) as int, b as int),
        gcd_nat(a, b) == 0 ==> a == 0 && b == 0,
    decreases b,
{
    let g = gcd_nat(a, b) as int;
    if b == 0 {
        assert(a as int == g * 1);
        assert(0int == g * 0);
    } else {
        lemma_gcd_nat_divides(b, a % b);
        let k1 = choose|k: int| b as int == #[trigger] (g * k);
        let k2 = choose|k: int| (a % b) as int == #[trigger] (g * k);
        lemma_fundamental_div_mod(a as int, b as int);
        let q = a as int / b as int;
        assert(a as int == (g * k1) * q + g * k2);
        assert(a as int == g * (k1 * q + k2)) by (nonlinear_arith)
            requires
                a as int == (g * k1) * q + g * k2,
        ;
        if g == 0 {
            assert(b as int == 0 * k1);
        }
    }
}

pub proof fn lemma_divides_gcd_nat(d: int, a: nat, b: nat)
    requires
        divides(d, a as int),
        divides(d, b as int),
    ensures
        divides(d, gcd_nat(a, b) as int),
    decreases b,
{
    if b == 0 {
    } else {
        let k1 = choose|k: int| a as int == #[trigger] (d * k);
        let k2 = choose|k: int| b as int == #[trigger] (d * k);
        lemma_fundamental_div_mod(a as int, b as int);
        let q = a as int / b as int;
        assert((a % b) as int == d * k1 - (d * k2) * q);
        assert((a % b) as int == d * (k1 - k2 * q)) by (nonlinear_arith)
            requires
                (a % b) as int == d * k1 - (d * k2) * q,
        ;
        lemma_divides_gcd_nat(d, b, a % b);
    }
}

pub proof fn lemma_divides_bound(d: int, x: int)
    requires
        divides(d, x),
        d > 0,
        x > 0,
    ensures
        d <= x,
{
    let k = choose|k: int| x == #[trigger] (d * k);
    assert(d * k > 0 && d > 0 ==> k >= 1 && d * k >= d) by (nonlinear_arith);
}

/// Divisibility only depends on magnitudes.
pub proof fn lemma_divides_abs(d: int, x: int)
    requires
        divides(d, x),
    ensures
        divides(iabs(d) as int, iabs(x) as int),
{
    let k = choose|k: int| x == #[trigger] (d * k);
    let ad = iabs(d) as int;
    let ax = iabs(x) as int;
    let ak = iabs(k) as int;
    assert(x == d * k ==> ax == ad * ak) by (nonlinear_arith)
        requires
            ad == iabs(d), ax == iabs(x), ak == iabs(k),
    ;
}

/// Divisibility transfers back from magnitudes to the signed values.
pub proof fn lemma_divides_of_abs(d: int, x: int)
    requires
        divides(iabs(d) as int, iabs(x) as int),
    ensures
        divides(d, x),
{
    let ad = iabs(d) as int;
    let ax = iabs(x) as int;
    let k = choose|k: int| (iabs(x) as int) == #[trigger] ((iabs(d) as int) * k);
    assert(ax == ad * k);
    if d == 0 {
        assert(ax == 0) by (nonlinear_arith)
            requires
                ax == ad * k, ad == 0,
        ;
        assert(x == d * 0);
    } else {
        let ks = if (x >= 0) == (d >= 0) {
            k
        } else {
            -k
        };
        assert(ax == ad * k ==> x == d * ks) by (nonlinear_arith)
            requires
                ad == iabs(d), ax == iabs(x), ks == (if (x >= 0) == (d >= 0) { k } else { -k }),
        ;
    }
}

pub proof fn lemma_gcd_t_divides(a: int, b: int)
    ensures
        divides(gcd_t(a, b), a),
        divides(gcd_t(a, b), b),
        gcd_t(a, b) == 0 ==> a == 0 && b == 0,
        (a != 0 || b != 0) ==> iabs(gcd_t(a, b)) >= 1,
{
    let g = gcd_t(a, b);
    lemma_gcd_t_abs(a, b);
    lemma_gcd_nat_divides(iabs(a), iabs(b));
    lemma_divides_of_abs(g, a);
    lemma_divides_of_abs(g, b);
    if g == 0 {
        assert(iabs(a) == 0 && iabs(b) == 0);
    }
}

/// When `d` divides `x` exactly, the truncated quotient is exact.
pub proof fn lemma_div_t_exact(x: int, d: int)
    requires
        d != 0,
        divides(d, x),
    ensures
        x == d * div_t(x, d),
        x != 0 ==> div_t(x, d) != 0,
        iabs(div_t(x, d)) <= iabs(x),
{
    lemma_divides_abs(d, x);
    let ad = iabs(d) as int;
    let ax = iabs(x) as int;
    let k = choose|kk: int| (iabs(x) as int) == #[trigger] ((iabs(d) as int) * kk);
    assert(ax == ad * k);
    assert(k >= 0) by (nonlinear_arith)
        requires
            ax == ad * k, ad >= 1, ax >= 0,
    ;
    vstd::arithmetic::div_mod::lemma_div_multiples_vanish(k, ad);
    assert(ad * k == ax);
    assert(ax / ad == k);
    let q = div_t(x, d);
    if x == 0 {
        vstd::arithmetic::div_mod::lemma_div_of0(ad);
        assert(q == 0);
        assert(x == d * q) by (nonlinear_arith)
            requires
                q == 0, x == 0,
        ;
    } else if x > 0 && d > 0 {
        assert(q == k && x == ax && d == ad);
        assert(x == d * q) by (nonlinear_arith)
            requires
                ax == ad * k, x == ax, d == ad, q == k,
        ;
    } else if x > 0 && d < 0 {
        assert(q == -k && x == ax && d == -ad);
        assert(x == d * q) by (nonlinear_arith)
            requires
                ax == ad * k, x == ax, d == -ad, q == -k,
        ;
    } else if x < 0 && d > 0 {
        assert(q == -k && x == -ax && d == ad);
        assert(x == d * q) by (nonlinear_arith)
            requires
                ax == ad * k, x == -ax, d == ad, q == -k,
        ;
    } else {
        assert(q == k && x == -ax && d == -ad);
        assert(x == d * q) by (nonlinear_arith)
            requires
                ax == ad * k, x == -ax, d == -ad, q == k,
        ;
    }
    if x != 0 {
        assert(q != 0) by (nonlinear_arith)
            requires
                x == d * q, x != 0,
        ;
    }
    assert(ad * k >= k) by (nonlinear_arith)
        requires
            ad >= 1, k >= 0,
    ;
}

/// Magnitudes are multiplicative.
pub proof fn lemma_iabs_mul(x: int, y: int)
    ensures
        iabs(x * y) == iabs(x) * iabs(y),
{
    let px = iabs(x) as int;
    let py = iabs(y) as int;
    let pxy = iabs(x * y) as int;
    assert(pxy == px * py) by (nonlinear_arith)
        requires
            (x >= 0 ==> px == x),
            (x < 0 ==> px == -x),
            (y >= 0 ==> py == y),
            (y < 0 ==> py == -y),
            (x * y >= 0 ==> pxy == x * y),
            (x * y < 0 ==> pxy == -(x * y)),
    ;
}

/// Dividing both parts of a pair by their greatest common divisor leaves a
/// coprime pair.
pub proof fn lemma_coprime_after_div(g: int, a: int, b: int, a1: int, b1: int)
    requires
        g != 0,
        a == g * a1,
        b == g * b1,
        iabs(g) == gcd_nat(iabs(a), iabs(b)),
        !(a == 0 && b == 0),
    ensures
        gcd_nat(iabs(a1), iabs(b1)) == 1,
{
    let g1 = gcd_nat(iabs(a1), iabs(b1)) as int;
    lemma_gcd_nat_divides(iabs(a1), iabs(b1));
    if g1 == 0 {
        assert(iabs(a1) == 0 && iabs(b1) == 0);
        assert(a == g * 0 && b == g * 0) by (nonlinear_arith)
            requires
                a == g * a1, b == g * b1, a1 == 0, b1 == 0,
        ;
    } else if g1 >= 2 {
        assert(iabs(g1) == g1);
        lemma_divides_of_abs(g1, a1);
        lemma_divides_of_abs(g1, b1);
        let k1 = choose|k: int| a1 == #[trigger] (g1 * k);
        let k2 = choose|k: int| b1 == #[trigger] (g1 * k);
        assert(a == (g * g1) * k1 && b == (g * g1) * k2) by (nonlinear_arith)
            requires
                a == g * a1, b == g * b1, a1 == g1 * k1, b1 == g1 * k2,
        ;
        assert(divides(g * g1, a));
        assert(divides(g * g1, b));
        lemma_divides_abs(g * g1, a);
        lemma_divides_abs(g * g1, b);
        lemma_iabs_mul(g, g1);
        assert(iabs(g) * iabs(g1) == iabs(g) * g1);
        lemma_divides_gcd_nat((iabs(g) * g1) as int, iabs(a), iabs(b));
        assert(divides((iabs(g) * g1) as int, iabs(g) as int));
        assert(iabs(g) * g1 >= 2) by (nonlinear_arith)
            requires
                iabs(g) >= 1, g1 >= 2,
        ;
        lemma_divides_bound((iabs(g) * g1) as int, iabs(g) as int);
        assert(iabs(g) * g1 >= 2 * iabs(g)) by (nonlinear_arith)
            requires
                g1 >= 2,
        ;
        assert(false);
    }
}

/// Euclid's chain only ever holds values from the input range.
pub proof fn lemma_gcd_t_bounds(a: int, b: int)
    requires
        i64::MIN <= a <= i64::MAX,
        i64::MIN <= b <= i64::MAX,
    ensures
        i64::MIN <= gcd_t(a, b) <= i64::MAX,
    decreases iabs(b),
{
    if b != 0 {
        lemma_rem_t_abs(a, b);
        lemma_gcd_t_bounds(b, rem_t(a, b));
    }
}

/// The input pairs on which Euclid's loop would overflow a signed machine
/// word (a remainder of `i64::MIN` by `-1`).
pub open spec fn gcd_args_ok(a: int, b: int) -> bool {
    !(a == i64::MIN && b == -1) && !(a == -1 && b == i64::MIN)
}

/// Value in the signed 64-bit range.
pub open spec fn in64(x: int) -> bool {
    i64::MIN <= x <= i64::MAX
}

/// Truncated remainder on machine words; relies on the contract of
/// `i64::checked_rem`.
fn rem_i64(x: i64, y: i64) -> (r: i64)
    requires
        y != 0,
        !(x == i64::MIN && y == -1),
    ensures
        r as int == rem_t(x as int, y as int),
{
    let o = x.checked_rem(y);
    match o {
        Some(t) => t,
        None => vstd::pervasive::unreached(),
    }
}

/// Truncated quotient on machine words; relies on the contract of
/// `i64::checked_div`.
fn div_i64(x: i64, y: i64) -> (r: i64)
    requires
        y != 0,
        !(x == i64::MIN && y == -1),
    ensures
        r as int == div_t(x as int, y as int),
{
    proof {
        let ax = iabs(x as int) as int;
        let ay = iabs(y as int) as int;
        vstd::arithmetic::div_mod::lemma_div_nonincreasing(ax, ay);
        vstd::arithmetic::div_mod::lemma_div_pos_is_pos(ax, ay);
        if x == i64::MIN && y != 1 {
            vstd::arithmetic::div_mod::lemma_div_decreases(ax, ay);
        }
    }
    let o = x.checked_div(y);
    match o {
        Some(t) => t,
        None => vstd::pervasive::unreached(),
    }
}

/// Greatest common divisor by Euclid's algorithm on signed words, truncated
/// remainders and all; the sign of the result follows the remainder chain.
pub fn gcdi64(a: i64, b: i64) -> (r: i64)
    requires
        gcd_args_ok(a as int, b as int),
    ensures
        r as int == gcd_t(a as int, b as int),
{
    let mut x = a;
    let mut y = b;
    while y != 0
        invariant
            gcd_t(x as int, y as int) == gcd_t(a as int, b as int),
            gcd_args_ok(x as int, y as int),
            y == i64::MIN ==> (x == a && y == b),
        decreases iabs(y as int),
    {
        let tmp = rem_i64(x, y);
        proof {
            lemma_rem_t_abs(x as int, y as int);
            if y == i64::MIN && tmp == -1 {
                assert(iabs(x as int) % iabs(y as int) == 1);
                if iabs(x as int) == iabs(y as int) {
                    vstd::arithmetic::div_mod::lemma_mod_self_0(iabs(y as int) as int);
                } else {
                    vstd::arithmetic::div_mod::lemma_small_mod(iabs(x as int), iabs(y as int));
                }
                assert(iabs(x as int) == 1);
                assert(x == -1);
            }
        }
        x = y;
        y = tmp;
    }
    x
}

/// The least common multiple as the original formula computes it: the
/// product divided by the greatest common divisor.
pub open spec fn spec_lcm(a: int, b: int) -> int {
    div_t(a * b, gcd_t(a, b))
}

/// The conditions under which `lcmi64` stays inside the word range.
pub open spec fn lcm_ok(a: int, b: int) -> bool {
    &&& gcd_args_ok(a, b)
    &&& !(a == 0 && b == 0)
    &&& in64(a * b)
    &&& !(a * b == i64::MIN && gcd_t(a, b) == -1)
}

pub fn lcmi64(a: i64, b: i64) -> (r: i64)
    requires
        lcm_ok(a as int, b as int),
    ensures
        r as int == spec_lcm(a as int, b as int),
{
    let g = gcdi64(a, b);
    proof {
        lemma_gcd_t_divides(a as int, b as int);
    }
    let p = a.checked_mul(b).unwrap();
    div_i64(p, g)
}

/// An exact fraction: a pair of signed words. Equality is structural and
/// meaningful only on reduced values.
#[derive(Clone, Copy, PartialEq, Eq, Structural)]
pub struct Frac {
    pub num: i64,
    pub denom: i64,
}

pub open spec fn frac_gcd(f: Frac) -> int {
    gcd_t(f.num as int, f.denom as int)
}

/// The parts have no common divisor beyond one.
pub open spec fn is_reduced(f: Frac) -> bool {
    gcd_nat(iabs(f.num as int), iabs(f.denom as int)) == 1
}

/// The fractions whose reduction stays inside the word range: both the gcd
/// computation and the two exact divisions are defined.
pub open spec fn reduce_ok(f: Frac) -> bool {
    &&& gcd_args_ok(f.num as int, f.denom as int)
    &&& !(f.num == 0 && f.denom == 0)
    &&& (frac_gcd(f) == -1 ==> f.num != i64::MIN && f.denom != i64::MIN)
}

/// What reduction computes: both parts divided by their signed gcd, and
/// whether that was a change.
pub open spec fn spec_reduce(f: Frac) -> (Frac, bool) {
    let g = frac_gcd(f);
    if g == 1 {
        (f, false)
    } else {
        (
            Frac {
                num: div_t(f.num as int, g) as i64,
                denom: div_t(f.denom as int, g) as i64,
            },
            true,
        )
    }
}

/// Numerator of the exact (unreduced) sum over the least common denominator.
pub open spec fn add_parts(a: Frac, b: Frac) -> (int, int) {
    let l = spec_lcm(a.denom as int, b.denom as int);
    (a.num * div_t(l, a.denom as int) + b.num * div_t(l, b.denom as int), l)
}

pub open spec fn sub_parts(a: Frac, b: Frac) -> (int, int) {
    let l = spec_lcm(a.denom as int, b.denom as int);
    (a.num * div_t(l, a.denom as int) - b.num * div_t(l, b.denom as int), l)
}

/// Both denominators usable and the common denominator computable in words.
pub open spec fn lcm_pair_ok(a: Frac, b: Frac) -> bool {
    &&& a.denom != 0
    &&& b.denom != 0
    &&& lcm_ok(a.denom as int, b.denom as int)
    &&& !(spec_lcm(a.denom as int, b.denom as int) == i64::MIN && (a.denom == -1 || b.denom
        == -1))
}

pub open spec fn add_ok(a: Frac, b: Frac) -> bool {
    &&& lcm_pair_ok(a, b)
    &&& in64(a.num * div_t(add_parts(a, b).1, a.denom as int))
    &&& in64(b.num * div_t(add_parts(a, b).1, b.denom as int))
    &&& in64(add_parts(a, b).0)
    &&& reduce_ok(Frac { num: add_parts(a, b).0 as i64, denom: add_parts(a, b).1 as i64 })
}

pub open spec fn sub_ok(a: Frac, b: Frac) -> bool {
    &&& lcm_pair_ok(a, b)
    &&& in64(a.num * div_t(sub_parts(a, b).1, a.denom as int))
    &&& in64(b.num * div_t(sub_parts(a, b).1, b.denom as int))
    &&& in64(sub_parts(a, b).0)
    &&& reduce_ok(Frac { num: sub_parts(a, b).0 as i64, denom: sub_parts(a, b).1 as i64 })
}

pub open spec fn mul_ok(a: Frac, b: Frac) -> bool {
    &&& in64(a.num * b.num)
    &&& in64(a.denom * b.denom)
    &&& reduce_ok(
        Frac { num: (a.num * b.num) as i64, denom: (a.denom * b.denom) as i64 },
    )
}

pub open spec fn div_frac_ok(a: Frac, b: Frac) -> bool {
    &&& in64(a.num * b.denom)
    &&& in64(a.denom * b.num)
    &&& reduce_ok(
        Frac { num: (a.num * b.denom) as i64, denom: (a.denom * b.num) as i64 },
    )
}

pub open spec fn spec_add(a: Frac, b: Frac) -> Frac {
    spec_reduce(Frac { num: add_parts(a, b).0 as i64, denom: add_parts(a, b).1 as i64 }).0
}

pub open spec fn spec_sub(a: Frac, b: Frac) -> Frac {
    spec_reduce(Frac { num: sub_parts(a, b).0 as i64, denom: sub_parts(a, b).1 as i64 }).0
}

pub open spec fn spec_mul(a: Frac, b: Frac) -> Frac {
    spec_reduce(Frac { num: (a.num * b.num) as i64, denom: (a.denom * b.denom) as i64 }).0
}

pub open spec fn spec_div_frac(a: Frac, b: Frac) -> Frac {
    spec_reduce(Frac { num: (a.num * b.denom) as i64, denom: (a.denom * b.num) as i64 }).0
}

impl Frac {
    pub fn new(num: i64, denom: i64) -> (r: Frac)
        ensures
            r.num == num,
            r.denom == denom,
    {
        Frac { num, denom }
    }

    pub fn gcd(&self) -> (r: i64)
        requires
            gcd_args_ok(self.num as int, self.denom as int),
        ensures
            r as int == frac_gcd(*self),
    {
        gcdi64(self.num, self.denom)
    }

    pub fn denom_lcm(&self, other: &Frac) -> (r: i64)
        requires
            lcm_ok(self.denom as int, other.denom as int),
        ensures
            r as int == spec_lcm(self.denom as int, other.denom as int),
    {
        lcmi64(self.denom, other.denom)
    }

    /// Divides both parts by their gcd in place; reports whether anything
    /// changed. The result carries no common divisor (the reduced-fraction
    /// invariant).
    pub fn simplify(&mut self) -> (changed: bool)
        requires
            reduce_ok(*old(self)),
        ensures
            *final(self) == spec_reduce(*old(self)).0,
            changed == spec_reduce(*old(self)).1,
            is_reduced(*final(self)),
            old(self).denom != 0 ==> final(self).denom != 0,
            old(self).num == 0 && old(self).denom != 0 ==> final(self).num == 0
                && final(self).denom == 1,
            final(self).num * old(self).denom == old(self).num * final(self).denom,
    {
        proof {
            lemma_gcd_t_divides(self.num as int, self.denom as int);
            lemma_gcd_t_bounds(self.num as int, self.denom as int);
            lemma_gcd_t_abs(self.num as int, self.denom as int);
            if self.num == 0 && self.denom != 0 {
                let dd = self.denom as int;
                assert(gcd_t(0, dd) == gcd_t(dd, rem_t(0, dd)));
                vstd::arithmetic::div_mod::lemma_small_mod(0nat, iabs(dd));
                assert(rem_t(0, dd) == 0);
                assert(gcd_t(dd, 0) == dd);
            }
        }
        let g = self.gcd();
        if g == 1 {
            return false;
        }
        proof {
            lemma_div_t_exact(self.num as int, frac_gcd(*self));
            lemma_div_t_exact(self.denom as int, frac_gcd(*self));
            lemma_coprime_after_div(
                frac_gcd(*self),
                self.num as int,
                self.denom as int,
                div_t(self.num as int, frac_gcd(*self)),
                div_t(self.denom as int, frac_gcd(*self)),
            );
            if self.num == 0 && self.denom != 0 {
                let dd = self.denom as int;
                assert(gcd_t(0, dd) == gcd_t(dd, rem_t(0, dd)));
                assert(rem_t(0, dd) == 0);
                assert(gcd_t(dd, 0) == dd);
                vstd::arithmetic::div_mod::lemma_div_of0(iabs(dd) as int);
                vstd::arithmetic::div_mod::lemma_div_by_self(iabs(dd) as int);
            }
        }
        let n2 = div_i64(self.num, g);
        let d2 = div_i64(self.denom, g);
        proof {
            let gg = frac_gcd(*self);
            assert(n2 as int * self.denom as int == self.num as int * d2 as int)
                by (nonlinear_arith)
                requires
                    self.num as int == gg * (n2 as int),
                    self.denom as int == gg * (d2 as int),
            ;
        }
        self.num = n2;
        self.denom = d2;
        true
    }

    pub fn is_zero(&self) -> (r: bool)
        ensures
            r == (self.num == 0),
    {
        self.num == 0
    }

    pub fn is_one(&self) -> (r: bool)
        ensures
            r == (self.num == self.denom),
    {
        self.num == self.denom
    }

    pub fn is_int(&self) -> (r: bool)
        ensures
            r == (self.denom == 1),
    {
        self.denom == 1
    }

    /// The value is negative: the parts carry opposite signs.
    pub fn is_negative(&self) -> (r: bool)
        ensures
            r == (self.num * self.denom < 0),
    {
        proof {
            assert((self.num * self.denom < 0) == (self.num != 0 && self.denom != 0 && ((
            self.num < 0) != (self.denom < 0)))) by (nonlinear_arith);
        }
        self.num != 0 && self.denom != 0 && ((self.num < 0) != (self.denom < 0))
    }

    /// The reciprocal: parts swapped. Meaningless when the numerator is
    /// zero; callers guard.
    pub fn inv(&self) -> (r: Frac)
        ensures
            r.num == self.denom,
            r.denom == self.num,
    {
        Frac { num: self.denom, denom: self.num }
    }

    /// Sum, reduced, when every intermediate fits in a word.
    pub fn checked_add(self, other: Frac) -> (r: Option<Frac>)
        ensures
            r is Some <==> add_ok(self, other),
            r is Some ==> r->0 == spec_add(self, other) && is_reduced(r->0) && r->0.denom
                != 0,
    {
        if self.denom == 0 || other.denom == 0 {
            return None;
        }
        let ad = self.denom;
        let bd = other.denom;
        if (ad == i64::MIN && bd == -1) || (ad == -1 && bd == i64::MIN) {
            return None;
        }
        let p = match ad.checked_mul(bd) {
            Some(p) => p,
            None => {
                return None;
            },
        };
        let g = gcdi64(ad, bd);
        if p == i64::MIN && g == -1 {
            return None;
        }
        proof {
            lemma_gcd_t_divides(ad as int, bd as int);
        }
        let l = div_i64(p, g);
        if l == i64::MIN && (ad == -1 || bd == -1) {
            return None;
        }
        proof {
            lemma_lcm_divisible(ad as int, bd as int);
        }
        let qa = div_i64(l, ad);
        let qb = div_i64(l, bd);
        let ta = match self.num.checked_mul(qa) {
            Some(t) => t,
            None => {
                return None;
            },
        };
        let tb = match other.num.checked_mul(qb) {
            Some(t) => t,
            None => {
                return None;
            },
        };
        let n = match ta.checked_add(tb) {
            Some(t) => t,
            None => {
                return None;
            },
        };
        proof {
            lemma_lcm_nonzero(ad as int, bd as int);
        }
        if (n == i64::MIN && l == -1) || (n == -1 && l == i64::MIN) {
            return None;
        }
        let g2 = gcdi64(n, l);
        if g2 == -1 && (n == i64::MIN || l == i64::MIN) {
            return None;
        }
        let mut f = Frac { num: n, denom: l };
        f.simplify();
        Some(f)
    }

    /// Difference, reduced, when every intermediate fits in a word.
    pub fn checked_sub(self, other: Frac) -> (r: Option<Frac>)
        ensures
            r is Some <==> sub_ok(self, other),
            r is Some ==> r->0 == spec_sub(self, other) && is_reduced(r->0) && r->0.denom
                != 0,
    {
        if self.denom == 0 || other.denom == 0 {
            return None;
        }
        let ad = self.denom;
        let bd = other.denom;
        if (ad == i64::MIN && bd == -1) || (ad == -1 && bd == i64::MIN) {
            return None;
        }
        let p = match ad.checked_mul(bd) {
            Some(p) => p,
            None => {
                return None;
            },
        };
        let g = gcdi64(ad, bd);
        if p == i64::MIN && g == -1 {
            return None;
        }
        proof {
            lemma_gcd_t_divides(ad as int, bd as int);
        }
        let l = div_i64(p, g);
        if l == i64::MIN && (ad == -1 || bd == -1) {
            return None;
        }
        proof {
            lemma_lcm_divisible(ad as int, bd as int);
        }
        let qa = div_i64(l, ad);
        let qb = div_i64(l, bd);
        let ta = match self.num.checked_mul(qa) {
            Some(t) => t,
            None => {
                return None;
            },
        };
        let tb = match other.num.checked_mul(qb) {
            Some(t) => t,
            None => {
                return None;
            },
        };
        let n = match ta.checked_sub(tb) {
            Some(t) => t,
            None => {
                return None;
            },
        };
        proof {
            lemma_lcm_nonzero(ad as int, bd as int);
        }
        if (n == i64::MIN && l == -1) || (n == -1 && l == i64::MIN) {
            return None;
        }
        let g2 = gcdi64(n, l);
        if g2 == -1 && (n == i64::MIN || l == i64::MIN) {
            return None;
        }
        let mut f = Frac { num: n, denom: l };
        f.simplify();
        Some(f)
    }

    /// Product, reduced, when every intermediate fits in a word.
    pub fn checked_mul(self, other: Frac) -> (r: Option<Frac>)
        ensures
            r is Some <==> mul_ok(self, other),
            r is Some ==> r->0 == spec_mul(self, other) && is_reduced(r->0),
            r is Some && self.denom != 0 && other.denom != 0 ==> r->0.denom != 0,
    {
        let n = match self.num.checked_mul(other.num) {
            Some(t) => t,
            None => {
                return None;
            },
        };
        let d = match self.denom.checked_mul(other.denom) {
            Some(t) => t,
            None => {
                return None;
            },
        };
        if n == 0 && d == 0 {
            return None;
        }
        if (n == i64::MIN && d == -1) || (n == -1 && d == i64::MIN) {
            return None;
        }
        let g2 = gcdi64(n, d);
        if g2 == -1 && (n == i64::MIN || d == i64::MIN) {
            return None;
        }
        proof {
            if self.denom != 0 && other.denom != 0 {
                assert(self.denom as int * other.denom as int != 0) by (nonlinear_arith)
                    requires
                        self.denom != 0,
                        other.denom != 0,
                ;
            }
        }
        let mut f = Frac { num: n, denom: d };
        f.simplify();
        Some(f)
    }

    /// Quotient, reduced, when every intermediate fits in a word.
    pub fn checked_div(self, other: Frac) -> (r: Option<Frac>)
        ensures
            r is Some <==> div_frac_ok(self, other),
            r is Some ==> r->0 == spec_div_frac(self, other) && is_reduced(r->0),
    {
        let n = match self.num.checked_mul(other.denom) {
            Some(t) => t,
            None => {
                return None;
            },
        };
        let d = match self.denom.checked_mul(other.num) {
            Some(t) => t,
            None => {
                return None;
            },
        };
        if n == 0 && d == 0 {
            return None;
        }
        if (n == i64::MIN && d == -1) || (n == -1 && d == i64::MIN) {
            return None;
        }
        let g2 = gcdi64(n, d);
        if g2 == -1 && (n == i64::MIN || d == i64::MIN) {
            return None;
        }
        let mut f = Frac { num: n, denom: d };
        f.simplify();
        Some(f)
    }

    /// Sum of two fractions by the cross-multiplied formula over the least
    /// common denominator; the result is always reduced.
    pub fn add(self, other: Frac) -> (r: Frac)
        requires
            add_ok(self, other),
        ensures
            r == spec_add(self, other),
            is_reduced(r),
            r.denom != 0,
    {
        match self.checked_add(other) {
            Some(f) => f,
            None => vstd::pervasive::unreached(),
        }
    }

    /// Difference of two fractions; the result is always reduced.
    pub fn sub(self, other: Frac) -> (r: Frac)
        requires
            sub_ok(self, other),
        ensures
            r == spec_sub(self, other),
            is_reduced(r),
            r.denom != 0,
    {
        match self.checked_sub(other) {
            Some(f) => f,
            None => vstd::pervasive::unreached(),
        }
    }

    /// Product of two fractions; the result is always reduced.
    pub fn mul(self, other: Frac) -> (r: Frac)
        requires
            mul_ok(self, other),
        ensures
            r == spec_mul(self, other),
            is_reduced(r),
    {
        match self.checked_mul(other) {
            Some(f) => f,
            None => vstd::pervasive::unreached(),
        }
    }

    /// Quotient of two fractions; the result is always reduced.
    pub fn div(self, other: Frac) -> (r: Frac)
        requires
            div_frac_ok(self, other),
        ensures
            r == spec_div_frac(self, other),
            is_reduced(r),
    {
        match self.checked_div(other) {
            Some(f) => f,
            None => vstd::pervasive::unreached(),
        }
    }
}

/// Both denominators divide their least common multiple.
pub proof fn lemma_lcm_divisible(ad: int, bd: int)
    requires
        ad != 0,
        bd != 0,
        gcd_args_ok(ad, bd),
    ensures
        divides(ad, spec_lcm(ad, bd)),
        divides(bd, spec_lcm(ad, bd)),
        spec_lcm(ad, bd) != 0,
{
    let g = gcd_t(ad, bd);
    lemma_gcd_t_divides(ad, bd);
    let k1 = choose|k: int| ad == #[trigger] (g * k);
    let k2 = choose|k: int| bd == #[trigger] (g * k);
    let p = ad * bd;
    assert(p == g * (k1 * bd) && p == g * (ad * k2)) by (nonlinear_arith)
        requires
            ad == g * k1,
            bd == g * k2,
            p == ad * bd,
    ;
    assert(divides(g, p));
    lemma_div_t_exact(p, g);
    let l = spec_lcm(ad, bd);
    assert(p != 0) by (nonlinear_arith)
        requires
            ad != 0,
            bd != 0,
            p == ad * bd,
    ;
    assert(g * l == g * (k1 * bd) && g != 0 ==> l == k1 * bd) by (nonlinear_arith);
    assert(g * l == g * (ad * k2) && g != 0 ==> l == ad * k2) by (nonlinear_arith);
    assert(l == bd * k1 && l == ad * k2) by (nonlinear_arith)
        requires
            l == k1 * bd,
            l == ad * k2,
    ;
    assert(divides(bd, l));
    assert(divides(ad, l));
}

pub proof fn lemma_lcm_nonzero(ad: int, bd: int)
    requires
        ad != 0,
        bd != 0,
        gcd_args_ok(ad, bd),
    ensures
        spec_lcm(ad, bd) != 0,
{
    lemma_lcm_divisible(ad, bd);
}

} // verus!
