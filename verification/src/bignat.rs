//! Unbounded natural numbers for the exact probability arithmetic of the
//! scoring engine.
//!
//! A `Natural` holds its value as base-2^32 digits, least significant first,
//! and its mathematical value is the view. The heavy arithmetic (multiply,
//! add, subtract, divide, binomial coefficient) is delegated to the
//! `num-bigint` and `num-integer` crates through trusted wrappers whose
//! contracts state the exact arithmetic result; everything else (conversions
//! with `u64`, powers, falling products, the point-value formula) is
//! verified here.

use vstd::prelude::*;
use vstd::arithmetic::power::{pow, lemma_pow1, lemma_pow_adds, lemma_pow_positive};
use vstd::arithmetic::mul::{lemma_mul_is_associative, lemma_mul_inequality};

verus! {

/// The value of a little-endian sequence of base-2^32 digits.
pub open spec fn limbs_value(s: Seq<u32>) -> nat
    decreases s.len(),
{
    if s.len() == 0 {
        0
    } else {
        s[0] as nat + 0x1_0000_0000 * limbs_value(s.drop_first())
    }
}

/// An unbounded natural number.
pub struct Natural {
    limbs: Vec<u32>,
}

impl View for Natural {
    type V = nat;

    closed spec fn view(&self) -> nat {
        limbs_value(self.limbs@)
    }
}

proof fn lemma_limbs_value_all_zero(s: Seq<u32>)
    requires
        forall|j: int| 0 <= j < s.len() ==> s[j] == 0,
    ensures
        limbs_value(s) == 0,
    decreases s.len(),
{
    if s.len() > 0 {
        lemma_limbs_value_all_zero(s.drop_first());
    }
}

/// A digit at position `i` contributes at least `2^(32*i) * s[i]`.
proof fn lemma_limbs_value_lower(s: Seq<u32>, i: int)
    requires
        0 <= i < s.len(),
    ensures
        limbs_value(s) >= pow(0x1_0000_0000, i as nat) * s[i],
    decreases i,
{
    if i == 0 {
        assert(pow(0x1_0000_0000, 0) == 1) by {
            vstd::arithmetic::power::lemma_pow0(0x1_0000_0000);
        }
    } else {
        let t = s.drop_first();
        lemma_limbs_value_lower(t, i - 1);
        assert(limbs_value(s) >= 0x1_0000_0000 * limbs_value(t));
        lemma_mul_inequality(
            pow(0x1_0000_0000, (i - 1) as nat) * s[i],
            limbs_value(t) as int,
            0x1_0000_0000,
        );
        assert(0x1_0000_0000 * (pow(0x1_0000_0000, (i - 1) as nat) * s[i])
            == (0x1_0000_0000 * pow(0x1_0000_0000, (i - 1) as nat)) * s[i]) by {
            lemma_mul_is_associative(0x1_0000_0000, pow(0x1_0000_0000, (i - 1) as nat), s[i] as int);
        }
        assert(0x1_0000_0000 * pow(0x1_0000_0000, (i - 1) as nat) == pow(0x1_0000_0000, i as nat)) by {
            lemma_pow1(0x1_0000_0000);
            lemma_pow_adds(0x1_0000_0000, 1, (i - 1) as nat);
        }
    }
}

impl Natural {
    /// The natural number given by a machine word.
    pub fn from_u64(n: u64) -> (r: Natural)
        ensures
            r@ == n as nat,
    {
        let lo: u32 = (n % 0x1_0000_0000) as u32;
        let hi: u32 = (n / 0x1_0000_0000) as u32;
        let mut limbs: Vec<u32> = Vec::new();
        limbs.push(lo);
        limbs.push(hi);
        proof {
            let s = limbs@;
            assert(s.drop_first() =~= seq![hi]);
            assert(seq![hi].drop_first() =~= Seq::<u32>::empty());
            assert(limbs_value(Seq::<u32>::empty()) == 0);
            assert(limbs_value(seq![hi]) == hi as nat);
            assert(limbs_value(s) == lo as nat + 0x1_0000_0000 * (hi as nat));
            vstd::arithmetic::div_mod::lemma_fundamental_div_mod(n as int, 0x1_0000_0000);
        }
        Natural { limbs }
    }

    /// The value as a machine word, where it fits.
    pub fn to_u64(&self) -> (r: Option<u64>)
        ensures
            match r {
                Some(v) => v as nat == self@,
                None => self@ > u64::MAX,
            },
    {
        let n = self.limbs.len();
        let mut i: usize = 2;
        while i < n
            invariant
                2 <= i,
                n == self.limbs@.len(),
                forall|j: int| 2 <= j < i ==> self.limbs@[j] == 0,
            decreases n - i,
        {
            if self.limbs[i] != 0 {
                proof {
                    let b: int = 0x1_0000_0000;
                    let d: int = self.limbs@[i as int] as int;
                    lemma_limbs_value_lower(self.limbs@, i as int);
                    lemma_pow_positive(b, i as nat);
                    lemma_mul_inequality(1, d, pow(b, i as nat));
                    vstd::arithmetic::mul::lemma_mul_is_commutative(d, pow(b, i as nat));
                    assert(limbs_value(self.limbs@) >= pow(b, i as nat));
                    vstd::arithmetic::power::lemma_pow_increases(0x1_0000_0000, 2, i as nat);
                    assert(pow(b, 2) == 0x1_0000_0000_0000_0000) by {
                        lemma_pow1(b);
                        lemma_pow_adds(b, 1, 1);
                    }
                }
                return None;
            }
            i = i + 1;
        }
        let lo: u64 = if n > 0 { self.limbs[0] as u64 } else { 0 };
        let hi: u64 = if n > 1 { self.limbs[1] as u64 } else { 0 };
        proof {
            let s = self.limbs@;
            assert(limbs_value(Seq::<u32>::empty()) == 0);
            if n == 1 {
                assert(s.drop_first() =~= Seq::<u32>::empty());
                assert(limbs_value(s) == s[0] as nat);
            } else if n >= 2 {
                let t = s.drop_first();
                let u = t.drop_first();
                assert(forall|j: int| 0 <= j < u.len() ==> u[j] == s[j + 2] && u[j] == 0);
                lemma_limbs_value_all_zero(u);
                assert(limbs_value(t) == t[0] as nat);
                assert(limbs_value(s) == s[0] as nat + 0x1_0000_0000 * (s[1] as nat));
            }
        }
        Some(lo + hi * 0x1_0000_0000u64)
    }

    /// Whether the value is zero.
    pub fn is_zero(&self) -> (r: bool)
        ensures
            r == (self@ == 0),
    {
        let n = self.limbs.len();
        let mut i: usize = 0;
        while i < n
            invariant
                n == self.limbs@.len(),
                forall|j: int| 0 <= j < i ==> self.limbs@[j] == 0,
            decreases n - i,
        {
            if self.limbs[i] != 0 {
                proof {
                    lemma_limbs_value_lower(self.limbs@, i as int);
                    lemma_pow_positive(0x1_0000_0000, i as nat);
                    lemma_mul_inequality(
                        1,
                        pow(0x1_0000_0000, i as nat),
                        self.limbs@[i as int] as int,
                    );
                    assert(pow(0x1_0000_0000, i as nat) * self.limbs@[i as int] >= 1 * 1) by {
                        lemma_mul_inequality(
                            1,
                            self.limbs@[i as int] as int,
                            pow(0x1_0000_0000, i as nat),
                        );
                        lemma_mul_inequality(1, pow(0x1_0000_0000, i as nat), 1);
                    }
                }
                return false;
            }
            i = i + 1;
        }
        proof {
            lemma_limbs_value_all_zero(self.limbs@);
        }
        true
    }
}

/// Relies on `num_bigint::BigUint` multiplication. `BigUint::new` and
/// `to_u32_digits` exchange the value as base-2^32 digits, least
/// significant first, exactly the representation of `Natural`.
#[verifier::external_body]
pub fn nat_mul(a: &Natural, b: &Natural) -> (r: Natural)
    ensures
        r@ == a@ * b@,
{
    let p = num_bigint::BigUint::new(a.limbs.clone()) * num_bigint::BigUint::new(b.limbs.clone());
    Natural { limbs: p.to_u32_digits() }
}

/// Relies on `num_bigint::BigUint` addition.
#[verifier::external_body]
pub fn nat_add(a: &Natural, b: &Natural) -> (r: Natural)
    ensures
        r@ == a@ + b@,
{
    let s = num_bigint::BigUint::new(a.limbs.clone()) + num_bigint::BigUint::new(b.limbs.clone());
    Natural { limbs: s.to_u32_digits() }
}

/// Relies on `num_bigint::BigUint` subtraction, which panics on underflow:
/// the precondition rules that out.
#[verifier::external_body]
pub fn nat_sub(a: &Natural, b: &Natural) -> (r: Natural)
    requires
        b@ <= a@,
    ensures
        r@ == a@ - b@,
{
    let d = num_bigint::BigUint::new(a.limbs.clone()) - num_bigint::BigUint::new(b.limbs.clone());
    Natural { limbs: d.to_u32_digits() }
}

/// Relies on `num_bigint::BigUint` division, which truncates towards zero
/// (the floor, for naturals) and panics on a zero divisor: the
/// precondition rules that out.
#[verifier::external_body]
pub fn nat_div(a: &Natural, b: &Natural) -> (r: Natural)
    requires
        b@ > 0,
    ensures
        r@ == a@ / b@,
{
    let q = num_bigint::BigUint::new(a.limbs.clone()) / num_bigint::BigUint::new(b.limbs.clone());
    Natural { limbs: q.to_u32_digits() }
}

/// The binomial coefficient, by Pascal's rule.
pub open spec fn binom(n: nat, k: nat) -> nat
    decreases n,
{
    if k == 0 {
        1
    } else if k > n {
        0
    } else {
        binom((n - 1) as nat, (k - 1) as nat) + binom((n - 1) as nat, k)
    }
}

/// Relies on `num_integer::binomial`, which computes the binomial
/// coefficient C(n, k) (and 0 where k > n), here over `BigUint` so that it
/// cannot overflow.
#[verifier::external_body]
pub fn nat_binomial(n: u64, k: u64) -> (r: Natural)
    ensures
        r@ == binom(n as nat, k as nat),
{
    let c = num_integer::binomial(num_bigint::BigUint::from(n), num_bigint::BigUint::from(k));
    Natural { limbs: c.to_u32_digits() }
}

/// `base` raised to `e`, by repeated multiplication.
pub fn nat_pow(base: u64, e: usize) -> (r: Natural)
    ensures
        r@ == pow(base as int, e as nat),
{
    let mut r = Natural::from_u64(1);
    let mut i: usize = 0;
    proof {
        vstd::arithmetic::power::lemma_pow0(base as int);
    }
    while i < e
        invariant
            i <= e,
            r@ == pow(base as int, i as nat),
        decreases e - i,
    {
        let b = Natural::from_u64(base);
        r = nat_mul(&r, &b);
        proof {
            lemma_pow1(base as int);
            lemma_pow_adds(base as int, i as nat, 1);
        }
        i = i + 1;
    }
    r
}

/// The falling product `n * (n-1) * ... * (k+1)`, that is `n! / k!`.
pub open spec fn perms_spec(n: nat, k: nat) -> nat
    decreases n,
{
    if n <= k {
        1
    } else {
        n * perms_spec((n - 1) as nat, k)
    }
}

/// Peeling one factor off the bottom of a falling product.
proof fn lemma_perms_step(n: nat, m: nat)
    requires
        1 <= m <= n,
    ensures
        perms_spec(n, (m - 1) as nat) == perms_spec(n, m) * m,
    decreases n,
{
    assert(perms_spec(n, (m - 1) as nat) == n * perms_spec((n - 1) as nat, (m - 1) as nat));
    if n == m {
        assert(perms_spec((n - 1) as nat, (m - 1) as nat) == 1);
        assert(perms_spec(n, m) == 1);
    } else {
        lemma_perms_step((n - 1) as nat, m);
        assert(perms_spec(n, m) == n * perms_spec((n - 1) as nat, m));
        lemma_mul_is_associative(n as int, perms_spec((n - 1) as nat, m) as int, m as int);
    }
}

/// The number of ways to place an ordered run of `k` chosen symbols in `n`
/// positions: the falling product `n! / k!`.
pub fn permutations(n: u64, k: u64) -> (r: Natural)
    requires
        k <= n,
    ensures
        r@ == perms_spec(n as nat, k as nat),
{
    if n == k {
        return Natural::from_u64(1);
    }
    let mut result = Natural::from_u64(n);
    let mut m: u64 = n - 1;
    proof {
        assert(perms_spec((n - 1) as nat, (n - 1) as nat) == 1);
        assert(perms_spec(n as nat, (n - 1) as nat) == n * perms_spec((n - 1) as nat, (n - 1) as nat));
    }
    while m != k
        invariant
            k <= m < n,
            result@ == perms_spec(n as nat, m as nat),
        decreases m,
    {
        let f = Natural::from_u64(m);
        result = nat_mul(&result, &f);
        proof {
            lemma_perms_step(n as nat, m as nat);
        }
        m = m - 1;
    }
    result
}

/// The point value of a pattern whose probability is `num / den`:
/// the ceiling of `100 * den / num`, held to the range of `u64`.
/// A numerator of zero (a probability that the formula rounds to nothing)
/// saturates, as does a ceiling beyond `u64::MAX`.
pub open spec fn points_of(num: nat, den: nat) -> u64 {
    if num == 0 {
        u64::MAX
    } else {
        let q = (100 * den + num - 1) as nat / num;
        if q > u64::MAX {
            u64::MAX
        } else {
            q as u64
        }
    }
}

/// Converts an exact probability `num / den` into a point value.
pub fn ratio_points(num: &Natural, den: &Natural) -> (r: u64)
    ensures
        r == points_of(num@, den@),
{
    if num.is_zero() {
        return u64::MAX;
    }
    let hundred = Natural::from_u64(100);
    let one = Natural::from_u64(1);
    let scaled = nat_mul(&hundred, den);
    let bumped = nat_sub(&nat_add(&scaled, num), &one);
    let q = nat_div(&bumped, num);
    match q.to_u64() {
        Some(v) => v,
        None => u64::MAX,
    }
}

} // verus!
