//! Exact rational numbers of any size.
//!
//! A fraction is held as its numerator and denominator, each written as
//! little-endian two's-complement bytes. The arithmetic itself is done by
//! `num_rational::BigRational`, which never overflows; the functions here state
//! the exact value of every result.
use num_bigint::BigInt;
use num_rational::BigRational;
use num_rational::Ratio;
use num_traits::ToPrimitive;
use vstd::prelude::*;

verus! {

/// `256^n`.
pub open spec fn pow256(n: nat) -> int
    decreases n,
{
    if n == 0 {
        1
    } else {
        256 * pow256((n - 1) as nat)
    }
}

/// The unsigned integer whose little-endian bytes are `b`.
pub open spec fn unsigned_le(b: Seq<u8>) -> int
    decreases b.len(),
{
    if b.len() == 0 {
        0
    } else {
        b[0] as int + 256 * unsigned_le(b.drop_first())
    }
}

/// The integer whose little-endian two's-complement bytes are `b`; no bytes
/// stand for zero.
pub open spec fn signed_le(b: Seq<u8>) -> int {
    if b.len() > 0 && b.last() >= 128 {
        unsigned_le(b) - pow256(b.len())
    } else {
        unsigned_le(b)
    }
}

proof fn lemma_unsigned_bounds(b: Seq<u8>)
    ensures
        0 <= unsigned_le(b) < pow256(b.len()),
        unsigned_le(b) == 0 <==> forall|i: int| 0 <= i < b.len() ==> b[i] == 0,
    decreases b.len(),
{
    if b.len() > 0 {
        let rest = b.drop_first();
        lemma_unsigned_bounds(rest);
        assert(pow256(b.len()) == 256 * pow256(rest.len()));
        if unsigned_le(b) == 0 {
            assert forall|i: int| 0 <= i < b.len() implies b[i] == 0 by {
                if i > 0 {
                    assert(b[i] == rest[i - 1]);
                }
            }
        }
        if forall|i: int| 0 <= i < b.len() ==> b[i] == 0 {
            assert forall|i: int| 0 <= i < rest.len() implies rest[i] == 0 by {
                assert(rest[i] == b[i + 1]);
            }
        }
    }
}

/// The value of the fraction `n / d`.
pub open spec fn frac(n: int, d: int) -> real {
    n as real / d as real
}

/// A fraction `num / den` of integers of any size. Every fraction that the
/// arithmetic hands back is in lowest terms with a positive denominator, each
/// written in as few bytes as possible, so `==` on such fractions compares
/// their values.
#[derive(Clone, Debug, PartialEq, Eq)]
pub struct Rational {
    /// The numerator, as little-endian two's-complement bytes.
    pub num: Vec<u8>,
    /// The denominator, as little-endian two's-complement bytes.
    pub den: Vec<u8>,
}

impl Rational {
    /// Well-formed: a positive denominator.
    pub open spec fn wf(self) -> bool {
        signed_le(self.den@) > 0
    }

    /// The exact value of the fraction.
    pub open spec fn value(self) -> real {
        frac(signed_le(self.num@), signed_le(self.den@))
    }

    /// Whether the denominator is positive.
    pub fn is_wf(&self) -> (r: bool)
        ensures
            r == self.wf(),
    {
        let d = &self.den;
        let n = d.len();
        proof {
            lemma_unsigned_bounds(d@);
        }
        if n == 0 || d[n - 1] >= 128 {
            return false;
        }
        assert(d@.last() == d@[n - 1]);
        let mut i: usize = 0;
        while i < n
            invariant
                n == d@.len(),
                i <= n,
                forall|k: int| 0 <= k < i ==> d@[k] == 0,
                n > 0,
                d@[n - 1] < 128,
                d == &self.den,
            decreases n - i,
        {
            if d[i] != 0 {
                proof {
                    lemma_unsigned_bounds(d@);
                }
                assert(d@[i as int] != 0);
                assert(!(forall|k: int| 0 <= k < d@.len() ==> d@[k] == 0));
                assert(d@.last() == d@[n - 1]);
                return true;
            }
            i = i + 1;
        }
        false
    }

    /// A copy of the same fraction.
    pub fn copy(&self) -> (r: Rational)
        ensures
            r.num@ == self.num@,
            r.den@ == self.den@,
            r.wf() == self.wf(),
            r.value() == self.value(),
    {
        let r = Rational { num: self.num.clone(), den: self.den.clone() };
        assert(r.num@ =~= self.num@);
        assert(r.den@ =~= self.den@);
        r
    }

    /// The integer `n`.
    pub fn from_integer(n: i64) -> (r: Rational)
        ensures
            r.wf(),
            r.value() == n as real,
    {
        ratio_from_integer(n as i128)
    }

    /// The integer `n`, for counts of any machine size.
    pub fn from_count(n: usize) -> (r: Rational)
        ensures
            r.wf(),
            r.value() == n as real,
    {
        ratio_from_integer(n as i128)
    }

    /// The fraction `num / den`.
    pub fn new(num: i64, den: i64) -> (r: Rational)
        requires
            den != 0,
        ensures
            r.wf(),
            r.value() == frac(num as int, den as int),
    {
        let n = Rational::from_integer(num);
        let d = Rational::from_integer(den);
        assert(d.value() != 0real) by (nonlinear_arith)
            requires
                d.value() == den as real,
                den != 0,
        ;
        let r = n.div(&d);
        assert(frac(num as int, den as int) == (num as real) / (den as real));
        r
    }

    /// `self + b`.
    pub fn add(&self, b: &Rational) -> (r: Rational)
        requires
            self.wf(),
            b.wf(),
        ensures
            r.wf(),
            r.value() == self.value() + b.value(),
    {
        ratio_add(self, b)
    }

    /// `self - b`.
    pub fn sub(&self, b: &Rational) -> (r: Rational)
        requires
            self.wf(),
            b.wf(),
        ensures
            r.wf(),
            r.value() == self.value() - b.value(),
    {
        ratio_sub(self, b)
    }

    /// `self * b`.
    pub fn mul(&self, b: &Rational) -> (r: Rational)
        requires
            self.wf(),
            b.wf(),
        ensures
            r.wf(),
            r.value() == self.value() * b.value(),
    {
        ratio_mul(self, b)
    }

    /// `self / b`, for a non-zero `b`.
    pub fn div(&self, b: &Rational) -> (r: Rational)
        requires
            self.wf(),
            b.wf(),
            b.value() != 0real,
        ensures
            r.wf(),
            r.value() == self.value() / b.value(),
    {
        ratio_div(self, b)
    }

    /// `self <= b`.
    pub fn le(&self, b: &Rational) -> (r: bool)
        requires
            self.wf(),
            b.wf(),
        ensures
            r == (self.value() <= b.value()),
    {
        ratio_le(self, b)
    }

    /// `self < b`.
    pub fn lt(&self, b: &Rational) -> (r: bool)
        requires
            self.wf(),
            b.wf(),
        ensures
            r == (self.value() < b.value()),
    {
        !b.le(self)
    }

    /// `self == b` as numbers.
    pub fn eq_value(&self, b: &Rational) -> (r: bool)
        requires
            self.wf(),
            b.wf(),
        ensures
            r == (self.value() == b.value()),
    {
        self.le(b) && b.le(self)
    }

    /// The largest integer not above the value, where it fits in a `usize`.
    pub fn floor_count(&self) -> (r: Option<usize>)
        requires
            self.wf(),
        ensures
            r is Some <==> 0 <= self.value().floor() <= usize::MAX,
            r matches Some(k) ==> k as int == self.value().floor(),
    {
        ratio_floor_usize(self)
    }
}

/// Relies on `BigInt::from` and `BigRational::from_integer`: the integer `n`,
/// with denominator 1, written out by `BigInt::to_signed_bytes_le`.
#[verifier::external_body]
fn ratio_from_integer(n: i128) -> (r: Rational)
    ensures
        r.wf(),
        r.value() == n as real,
{
    let (a, b) = BigRational::from_integer(BigInt::from(n)).into_raw();
    Rational { num: a.to_signed_bytes_le(), den: b.to_signed_bytes_le() }
}

/// Relies on `BigRational` addition: the exact sum, in lowest terms with a
/// positive denominator (`Ratio::new` reduces it).
#[verifier::external_body]
fn ratio_add(a: &Rational, b: &Rational) -> (r: Rational)
    requires
        a.wf(),
        b.wf(),
    ensures
        r.wf(),
        r.value() == a.value() + b.value(),
{
    let x = Ratio::new_raw(BigInt::from_signed_bytes_le(&a.num), BigInt::from_signed_bytes_le(&a.den));
    let y = Ratio::new_raw(BigInt::from_signed_bytes_le(&b.num), BigInt::from_signed_bytes_le(&b.den));
    let (n, d) = (x + y).into_raw();
    Rational { num: n.to_signed_bytes_le(), den: d.to_signed_bytes_le() }
}

/// Relies on `BigRational` subtraction: the exact difference, in lowest
/// terms with a positive denominator.
#[verifier::external_body]
fn ratio_sub(a: &Rational, b: &Rational) -> (r: Rational)
    requires
        a.wf(),
        b.wf(),
    ensures
        r.wf(),
        r.value() == a.value() - b.value(),
{
    let x = Ratio::new_raw(BigInt::from_signed_bytes_le(&a.num), BigInt::from_signed_bytes_le(&a.den));
    let y = Ratio::new_raw(BigInt::from_signed_bytes_le(&b.num), BigInt::from_signed_bytes_le(&b.den));
    let (n, d) = (x - y).into_raw();
    Rational { num: n.to_signed_bytes_le(), den: d.to_signed_bytes_le() }
}

/// Relies on `BigRational` multiplication: the exact product, in lowest
/// terms with a positive denominator.
#[verifier::external_body]
fn ratio_mul(a: &Rational, b: &Rational) -> (r: Rational)
    requires
        a.wf(),
        b.wf(),
    ensures
        r.wf(),
        r.value() == a.value() * b.value(),
{
    let x = Ratio::new_raw(BigInt::from_signed_bytes_le(&a.num), BigInt::from_signed_bytes_le(&a.den));
    let y = Ratio::new_raw(BigInt::from_signed_bytes_le(&b.num), BigInt::from_signed_bytes_le(&b.den));
    let (n, d) = (x * y).into_raw();
    Rational { num: n.to_signed_bytes_le(), den: d.to_signed_bytes_le() }
}

/// Relies on `BigRational` division: the exact quotient, in lowest terms with
/// a positive denominator. It panics on a zero divisor, which `requires`
/// leaves out.
#[verifier::external_body]
fn ratio_div(a: &Rational, b: &Rational) -> (r: Rational)
    requires
        a.wf(),
        b.wf(),
        b.value() != 0real,
    ensures
        r.wf(),
        r.value() == a.value() / b.value(),
{
    let x = Ratio::new_raw(BigInt::from_signed_bytes_le(&a.num), BigInt::from_signed_bytes_le(&a.den));
    let y = Ratio::new_raw(BigInt::from_signed_bytes_le(&b.num), BigInt::from_signed_bytes_le(&b.den));
    let (n, d) = (x / y).into_raw();
    Rational { num: n.to_signed_bytes_le(), den: d.to_signed_bytes_le() }
}

/// Relies on the order of `BigRational` (`Ord::cmp`), which compares the
/// numbers for any positive denominators.
#[verifier::external_body]
fn ratio_le(a: &Rational, b: &Rational) -> (r: bool)
    requires
        a.wf(),
        b.wf(),
    ensures
        r == (a.value() <= b.value()),
{
    let x = Ratio::new_raw(BigInt::from_signed_bytes_le(&a.num), BigInt::from_signed_bytes_le(&a.den));
    let y = Ratio::new_raw(BigInt::from_signed_bytes_le(&b.num), BigInt::from_signed_bytes_le(&b.den));
    x <= y
}

/// Relies on `Ratio::floor` and `ToPrimitive::to_usize`, which gives `None`
/// exactly where the integer lies outside `usize`.
#[verifier::external_body]
fn ratio_floor_usize(a: &Rational) -> (r: Option<usize>)
    requires
        a.wf(),
    ensures
        r is Some <==> 0 <= a.value().floor() <= usize::MAX,
        r matches Some(k) ==> k as int == a.value().floor(),
{
    let x = Ratio::new_raw(BigInt::from_signed_bytes_le(&a.num), BigInt::from_signed_bytes_le(&a.den));
    x.floor().to_integer().to_usize()
}

} // verus!
