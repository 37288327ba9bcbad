//! Rings of integers modulo a power of two.  Each ring type stores a raw
//! unsigned integer; the ring element it stands for is that integer reduced
//! modulo `2^k`, so bits above the bit length `k` may hold garbage until the
//! value is reduced.
use vstd::prelude::*;
use vstd::arithmetic::power2::pow2;
use vstd::arithmetic::div_mod::{
    lemma_add_mod_noop, lemma_mod_twice, lemma_mul_mod_noop, lemma_small_mod, lemma_sub_mod_noop,
};

pub mod r64;
pub mod z2r;
pub mod z2r_wide;

verus! {

/// A ring `Z/2^k`, operated on through representatives.
pub trait Ring: Sized + Copy {
    /// The modulus `2^k` of the ring.
    spec fn modulus() -> int;

    /// Number of bits of the stored representative.
    spec fn repr_bits() -> nat;

    /// The stored representative, an integer in `[0, 2^repr_bits)`.
    spec fn raw(self) -> int;

    /// Facts that hold of every ring type: the modulus is a power of two that
    /// divides `2^repr_bits`, and representatives lie in their range.
    proof fn lemma_ring_facts(self)
        ensures
            Self::modulus() > 0,
            Self::modulus() <= pow2(Self::repr_bits()),
            pow2(Self::repr_bits()) as int % Self::modulus() == 0,
            0 <= self.raw() < pow2(Self::repr_bits()),
    ;

    /// The additive identity.
    fn zero() -> (r: Self)
        ensures
            r.raw() == 0,
    ;

    /// The multiplicative identity.
    fn one() -> (r: Self)
        ensures
            r.raw() == 1,
    ;

    /// Ring addition.
    fn ring_add(self, rhs: Self) -> (r: Self)
        ensures
            r.raw() % Self::modulus() == (self.raw() + rhs.raw()) % Self::modulus(),
    ;

    /// Ring subtraction.
    fn ring_sub(self, rhs: Self) -> (r: Self)
        ensures
            r.raw() % Self::modulus() == (self.raw() - rhs.raw()) % Self::modulus(),
    ;

    /// Ring multiplication.
    fn ring_mul(self, rhs: Self) -> (r: Self)
        ensures
            r.raw() % Self::modulus() == (self.raw() * rhs.raw()) % Self::modulus(),
    ;

    /// Additive inverse.
    fn ring_neg(self) -> (r: Self)
        ensures
            r.raw() % Self::modulus() == (-self.raw()) % Self::modulus(),
    ;

    /// Equality of ring elements: the representatives agree modulo `2^k`.
    fn ring_eq(&self, other: &Self) -> (r: bool)
        ensures
            r == (self.raw() % Self::modulus() == other.raw() % Self::modulus()),
    ;

    /// Whether this is the zero element.
    fn is_zero(&self) -> (r: bool)
        ensures
            r == (self.raw() % Self::modulus() == 0),
    ;

    /// Whether this is the unit element.
    fn is_one(&self) -> (r: bool)
        ensures
            r == (self.raw() % Self::modulus() == 1int % Self::modulus()),
    ;

    /// The canonical representative, in `[0, 2^k)`.
    fn reduce(&self) -> (r: Self)
        ensures
            r.raw() == self.raw() % Self::modulus(),
    ;

    /// Whether the representative is already canonical.
    fn is_reduced(&self) -> (r: bool)
        ensures
            r == (self.raw() < Self::modulus()),
    ;

    /// The representative with all bits from position `BITS` upwards cleared.
    fn reduce_to<const BITS: usize>(&self) -> (r: Self)
        requires
            BITS < Self::repr_bits(),
        ensures
            r.raw() == self.raw() % (pow2(BITS as nat) as int),
    ;

    /// Whether all bits from position `BITS` upwards are clear.
    fn is_reduced_to<const BITS: usize>(&self) -> (r: bool)
        requires
            BITS < Self::repr_bits(),
        ensures
            r == (self.raw() < pow2(BITS as nat)),
    ;

    /// The low 32 bits of the representative.
    fn reduce_to_32(&self) -> (r: u32)
        ensures
            r == self.raw() % 0x1_0000_0000,
    ;

    /// The low 64 bits of the representative.
    fn reduce_to_64(&self) -> (r: u64)
        ensures
            r == self.raw() % 0x1_0000_0000_0000_0000,
    ;

    /// A uniformly random element, drawn from `rng`.
    fn sample(rng: &mut rand::rngs::StdRng) -> Self;
}

/// The error of a value or bit pattern that is not below the modulus of a ring.
#[derive(Debug, Clone, Copy)]
pub struct BiggerThanModulus;

/// The ring element that a value stands for: its representative modulo `2^k`.
pub open spec fn residue<R: Ring>(x: R) -> int {
    x.raw() % R::modulus()
}

/// Sum of the ring elements of a sequence, as an integer.
pub open spec fn sum_residues<R: Ring>(s: Seq<R>) -> int
    decreases s.len(),
{
    if s.len() == 0 {
        0
    } else {
        sum_residues(s.drop_last()) + residue(s.last())
    }
}


/// `r` is `x` reduced modulo `m` when `x` is off from `r` by at most one `m`.
pub proof fn lemma_wrap(x: int, r: int, m: int)
    requires
        0 <= r < m,
        x == r || x == r + m || x == r - m,
    ensures
        r == x % m,
{
    if x == r {
        vstd::arithmetic::div_mod::lemma_fundamental_div_mod_converse(x, m, 0, r);
    } else if x == r + m {
        vstd::arithmetic::div_mod::lemma_fundamental_div_mod_converse(x, m, 1, r);
    } else {
        vstd::arithmetic::div_mod::lemma_fundamental_div_mod_converse(x, m, -1, r);
    }
}

/// Reducing gives a reduced representative of the same ring element: if `r`
/// is what `reduce` returns for `x`, then `is_reduced` holds of `r` and `r`
/// equals `x`.
pub proof fn lemma_reduce_is_reduced<R: Ring>(x: R, r: R)
    requires
        r.raw() == x.raw() % R::modulus(),
    ensures
        r.raw() < R::modulus(),
        residue(r) == residue(x),
{
    x.lemma_ring_facts();
    vstd::arithmetic::div_mod::lemma_mod_twice(x.raw(), R::modulus());
}

/// Subtracting `y` and adding it back gives `x` again: if `d` is what
/// `ring_sub` returns for `x` and `y`, and `s` what `ring_add` returns for `d`
/// and `y`, then `s` equals `x`.
pub proof fn lemma_sub_then_add<R: Ring>(x: R, y: R, d: R, s: R)
    requires
        d.raw() % R::modulus() == (x.raw() - y.raw()) % R::modulus(),
        s.raw() % R::modulus() == (d.raw() + y.raw()) % R::modulus(),
    ensures
        residue(s) == residue(x),
{
    let m = R::modulus();
    x.lemma_ring_facts();
    vstd::arithmetic::div_mod::lemma_add_mod_noop(d.raw(), y.raw(), m);
    vstd::arithmetic::div_mod::lemma_add_mod_noop(x.raw() - y.raw(), y.raw(), m);
}

/// A value plus its negation is zero: if `n` is what `ring_neg` returns for
/// `x` and `s` what `ring_add` returns for `x` and `n`, then `s` is the zero
/// element.
pub proof fn lemma_add_neg<R: Ring>(x: R, n: R, s: R)
    requires
        n.raw() % R::modulus() == (-x.raw()) % R::modulus(),
        s.raw() % R::modulus() == (x.raw() + n.raw()) % R::modulus(),
    ensures
        residue(s) == 0,
{
    let m = R::modulus();
    x.lemma_ring_facts();
    vstd::arithmetic::div_mod::lemma_add_mod_noop(x.raw(), n.raw(), m);
    vstd::arithmetic::div_mod::lemma_add_mod_noop(x.raw(), -x.raw(), m);
    vstd::arithmetic::div_mod::lemma_small_mod(0, m as nat);
}

/// Negation is subtraction from zero: if `n` is what `ring_neg` returns for
/// `x`, `z` is the zero element and `d` what `ring_sub` returns for `z` and
/// `x`, then `n` equals `d`.
pub proof fn lemma_neg_is_sub_from_zero<R: Ring>(x: R, z: R, n: R, d: R)
    requires
        z.raw() == 0,
        n.raw() % R::modulus() == (-x.raw()) % R::modulus(),
        d.raw() % R::modulus() == (z.raw() - x.raw()) % R::modulus(),
    ensures
        residue(n) == residue(d),
{
}

/// A ring sum of elements that stand for `a` and `b` modulo `2^k` stands for
/// `a + b`: if `r` is what `ring_add` returns for `x` and `y`, then `r` is
/// `a + b` modulo the modulus.
pub proof fn lemma_track_add<R: Ring>(x: R, y: R, r: R, a: int, b: int)
    requires
        residue(x) == a % R::modulus(),
        residue(y) == b % R::modulus(),
        r.raw() % R::modulus() == (x.raw() + y.raw()) % R::modulus(),
    ensures
        residue(r) == (a + b) % R::modulus(),
{
    let m = R::modulus();
    x.lemma_ring_facts();
    lemma_add_mod_noop(x.raw(), y.raw(), m);
    lemma_add_mod_noop(a, b, m);
}

/// A ring difference of elements that stand for `a` and `b` stands for
/// `a - b` modulo the modulus.
pub proof fn lemma_track_sub<R: Ring>(x: R, y: R, r: R, a: int, b: int)
    requires
        residue(x) == a % R::modulus(),
        residue(y) == b % R::modulus(),
        r.raw() % R::modulus() == (x.raw() - y.raw()) % R::modulus(),
    ensures
        residue(r) == (a - b) % R::modulus(),
{
    let m = R::modulus();
    x.lemma_ring_facts();
    lemma_sub_mod_noop(x.raw(), y.raw(), m);
    lemma_sub_mod_noop(a, b, m);
}

/// A ring product of elements that stand for `a` and `b` stands for `a * b`
/// modulo the modulus.
pub proof fn lemma_track_mul<R: Ring>(x: R, y: R, r: R, a: int, b: int)
    requires
        residue(x) == a % R::modulus(),
        residue(y) == b % R::modulus(),
        r.raw() % R::modulus() == (x.raw() * y.raw()) % R::modulus(),
    ensures
        residue(r) == (a * b) % R::modulus(),
{
    let m = R::modulus();
    x.lemma_ring_facts();
    lemma_mul_mod_noop(x.raw(), y.raw(), m);
    lemma_mul_mod_noop(a, b, m);
}

/// The negation of an element that stands for `a` stands for `-a` modulo the
/// modulus.
pub proof fn lemma_track_neg<R: Ring>(x: R, r: R, a: int)
    requires
        residue(x) == a % R::modulus(),
        r.raw() % R::modulus() == (-x.raw()) % R::modulus(),
    ensures
        residue(r) == (-a) % R::modulus(),
{
    let m = R::modulus();
    x.lemma_ring_facts();
    lemma_sub_mod_noop(0, x.raw(), m);
    lemma_sub_mod_noop(0, a, m);
    lemma_small_mod(0, m as nat);
}

/// Every element stands for its own residue, and for its representative.
pub proof fn lemma_track_self<R: Ring>(x: R)
    ensures
        residue(x) == residue(x) % R::modulus(),
        residue(x) == x.raw() % R::modulus(),
{
    x.lemma_ring_facts();
    lemma_mod_twice(x.raw(), R::modulus());
}

/// Sum of all elements of a slice, computed with ring additions.
pub fn ring_sum<R: Ring>(slice: &[R]) -> (r: R)
    ensures
        residue(r) == sum_residues(slice@) % R::modulus(),
{
    let mut s = R::zero();
    let mut i: usize = 0;
    proof {
        s.lemma_ring_facts();
        vstd::arithmetic::div_mod::lemma_small_mod(0, R::modulus() as nat);
    }
    while i < slice.len()
        invariant
            i <= slice.len(),
            residue(s) == sum_residues(slice@.take(i as int)) % R::modulus(),
        decreases slice.len() - i,
    {
        proof {
            assert(slice@.take(i + 1).drop_last() == slice@.take(i as int));
            slice[i as int].lemma_ring_facts();
            vstd::arithmetic::div_mod::lemma_add_mod_noop(
                sum_residues(slice@.take(i as int)),
                residue(slice@[i as int]),
                R::modulus(),
            );
            vstd::arithmetic::div_mod::lemma_mod_twice(slice@[i as int].raw(), R::modulus());
            vstd::arithmetic::div_mod::lemma_add_mod_noop(s.raw(), slice@[i as int].raw(), R::modulus());
        }
        s = s.ring_add(slice[i]);
        i += 1;
    }
    assert(slice@.take(slice.len() as int) == slice@);
    s
}

// Rings of bit length k + s, k + log s, k + 2s and k + 2s + log s for the
// security parameters k and s used by the VOLE protocols.

/// `Z/2^72` (k = 32, s = 40).
pub type R72 = z2r::Z2r<72>;

/// `Z/2^78` (k = 32, s = 40).
pub type R78 = z2r::Z2r<78>;

/// `Z/2^112` (k = 32, s = 40).
pub type R112 = z2r::Z2r<112>;

/// `Z/2^118` (k = 32, s = 40).
pub type R118 = z2r::Z2r<118>;

/// `Z/2^104` (k = 64, s = 40).
pub type R104 = z2r::Z2r<104>;

/// `Z/2^110` (k = 64, s = 40).
pub type R110 = z2r::Z2r<110>;

/// `Z/2^144` (k = 64, s = 40).
pub type R144 = z2r_wide::Z2rU192<144>;

/// `Z/2^150` (k = 64, s = 40).
pub type R150 = z2r_wide::Z2rU192<150>;

/// `Z/2^119` (k = 32, s = 80).
pub type R119 = z2r::Z2r<119>;

/// `Z/2^196` (k = 32, s = 80).
pub type R196 = z2r_wide::Z2rU256<196>;

/// `Z/2^203` (k = 32, s = 80).
pub type R203 = z2r_wide::Z2rU256<203>;

/// `Z/2^151` (k = 64, s = 80).
pub type R151 = z2r_wide::Z2rU192<151>;

/// `Z/2^224` (k = 64, s = 80).
pub type R224 = z2r_wide::Z2rU256<224>;

/// `Z/2^231` (k = 64, s = 80).
pub type R231 = z2r_wide::Z2rU256<231>;

} // verus!
