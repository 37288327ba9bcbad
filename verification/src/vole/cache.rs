//! Caches of base VOLE correlations: the prover holds pairs `(u, w)` and the
//! verifier holds `v`, with `w = u * delta + v` in the ring for the verifier's
//! secret `delta`.
use vstd::prelude::*;
use vstd::arithmetic::div_mod::{lemma_add_mod_noop, lemma_mul_mod_noop};
use crate::ring::{residue, Ring};

verus! {

/// `w = u * delta + v` entry by entry, in the ring.
pub open spec fn correlated<R: Ring>(u: Seq<R>, w: Seq<R>, v: Seq<R>, delta: R) -> bool {
    &&& u.len() == w.len()
    &&& u.len() == v.len()
    &&& forall|i: int|
        0 <= i < u.len() ==> #[trigger] residue(w[i]) == (residue(u[i]) * residue(delta) + residue(
            v[i],
        )) % R::modulus()
}

/// The prover's side of a cache of base VOLEs.
#[derive(Clone)]
pub struct CachedProver<T: Copy + Clone> {
    u: Vec<T>,
    w: Vec<T>,
}

impl<T: Copy + Clone> View for CachedProver<T> {
    type V = (Seq<T>, Seq<T>);

    /// The cached `u` and `w` values, oldest first.
    closed spec fn view(&self) -> (Seq<T>, Seq<T>) {
        (self.u@, self.w@)
    }
}

impl<T: Copy + Clone> CachedProver<T> {
    /// A cache holding `u` and `w`.
    pub fn init(u: Vec<T>, w: Vec<T>) -> (r: Self)
        ensures
            r@ == (u@, w@),
    {
        Self { u, w }
    }

    /// Takes the last `amount` entries out of the cache.
    pub fn get(&mut self, amount: usize) -> (r: (Vec<T>, Vec<T>))
        requires
            amount <= old(self)@.0.len(),
            amount <= old(self)@.1.len(),
        ensures
            r.0@ == old(self)@.0.skip(old(self)@.0.len() - amount),
            r.1@ == old(self)@.1.skip(old(self)@.1.len() - amount),
            final(self)@.0 == old(self)@.0.take(old(self)@.0.len() - amount),
            final(self)@.1 == old(self)@.1.take(old(self)@.1.len() - amount),
    {
        let ulen = self.u.len();
        let wlen = self.w.len();
        (self.u.split_off(ulen - amount), self.w.split_off(wlen - amount))
    }

    /// Takes the last entry out of the cache.
    pub fn pop(&mut self) -> (r: (T, T))
        requires
            old(self)@.0.len() > 0,
            old(self)@.1.len() > 0,
        ensures
            r.0 == old(self)@.0.last(),
            r.1 == old(self)@.1.last(),
            final(self)@.0 == old(self)@.0.drop_last(),
            final(self)@.1 == old(self)@.1.drop_last(),
    {
        let u = self.u.pop();
        let w = self.w.pop();
        (u.unwrap(), w.unwrap())
    }

    /// The number of cached `u` values.
    pub fn capacity(&self) -> (r: usize)
        ensures
            r == self@.0.len(),
    {
        self.u.len()
    }

    /// Adds entries after the cached ones.
    pub fn append(&mut self, u: Vec<T>, w: Vec<T>)
        ensures
            final(self)@.0 == old(self)@.0 + u@,
            final(self)@.1 == old(self)@.1 + w@,
    {
        let mut u = u;
        let mut w = w;
        self.u.append(&mut u);
        self.w.append(&mut w);
    }
}

/// The verifier's side of a cache of base VOLEs.
#[derive(Clone)]
pub struct CachedVerifier<T> {
    v: Vec<T>,
}

impl<T> View for CachedVerifier<T> {
    type V = Seq<T>;

    /// The cached `v` values, oldest first.
    closed spec fn view(&self) -> Seq<T> {
        self.v@
    }
}

impl<T: Copy + Clone> CachedVerifier<T> {
    /// A cache holding `v`.
    pub fn init(v: Vec<T>) -> (r: Self)
        ensures
            r@ == v@,
    {
        Self { v }
    }

    /// Adds entries after the cached ones.
    pub fn append(&mut self, v: Vec<T>)
        ensures
            final(self)@ == old(self)@ + v@,
    {
        let mut v = v;
        self.v.append(&mut v);
    }

    /// Takes the last entry out of the cache.
    pub fn pop(&mut self) -> (r: T)
        requires
            old(self)@.len() > 0,
        ensures
            r == old(self)@.last(),
            final(self)@ == old(self)@.drop_last(),
    {
        self.v.pop().unwrap()
    }

    /// A copy of the first `amount` entries; the cache keeps them.
    pub fn get(&mut self, amount: usize) -> (r: Vec<T>)
        requires
            amount <= old(self)@.len(),
        ensures
            r@ == old(self)@.take(amount as int),
            final(self)@ == old(self)@,
    {
        let mut r: Vec<T> = Vec::new();
        let mut i: usize = 0;
        while i < amount
            invariant
                i <= amount,
                amount <= self.v.len(),
                r@ == self.v@.take(i as int),
            decreases amount - i,
        {
            r.push(self.v[i]);
            i += 1;
            assert(r@ == self.v@.take(i as int));
        }
        r
    }

    /// The number of cached values.
    pub fn capacity(&self) -> (r: usize)
        ensures
            r == self@.len(),
    {
        self.v.len()
    }
}

/// One correlated entry: `a * delta + b`, computed with ring operations,
/// satisfies the correlation.
proof fn lemma_correlated_entry<R: Ring>(a: R, delta: R, b: R, t: R, c: R)
    requires
        t.raw() % R::modulus() == (a.raw() * delta.raw()) % R::modulus(),
        c.raw() % R::modulus() == (t.raw() + b.raw()) % R::modulus(),
    ensures
        residue(c) == (residue(a) * residue(delta) + residue(b)) % R::modulus(),
{
    let m = R::modulus();
    a.lemma_ring_facts();
    lemma_mul_mod_noop(a.raw(), delta.raw(), m);
    lemma_add_mod_noop(t.raw(), b.raw(), m);
    lemma_add_mod_noop(a.raw() * delta.raw(), b.raw(), m);
    lemma_add_mod_noop(residue(a) * residue(delta), b.raw(), m);
    lemma_add_mod_noop(residue(a) * residue(delta), residue(b), m);
    vstd::arithmetic::div_mod::lemma_mod_twice(b.raw(), m);
    vstd::arithmetic::div_mod::lemma_mod_twice(residue(a) * residue(delta), m);
}

/// A dealer of correlated caches.
pub struct GenCache {}

impl GenCache {
    /// Caches of `size` correlated entries for the verifier's `delta`: for
    /// each entry `u` and `v` are drawn from `rng` and `w = u * delta + v`.
    pub fn new_with_size<R: Ring>(rng: &mut rand::rngs::StdRng, delta: R, size: usize) -> (r: (
        CachedProver<R>,
        CachedVerifier<R>,
    ))
        ensures
            r.0@.0.len() == size,
            correlated(r.0@.0, r.0@.1, r.1@, delta),
    {
        let mut prover_cache_u: Vec<R> = Vec::with_capacity(size);
        let mut prover_cache_w: Vec<R> = Vec::with_capacity(size);
        let mut verifier_cache: Vec<R> = Vec::with_capacity(size);
        let mut i: usize = 0;
        while i < size
            invariant
                i <= size,
                prover_cache_u.len() == i,
                correlated(prover_cache_u@, prover_cache_w@, verifier_cache@, delta),
            decreases size - i,
        {
            let a1 = R::sample(rng);
            let b1 = R::sample(rng);
            let t = a1.ring_mul(delta);
            let c1 = t.ring_add(b1);
            proof {
                lemma_correlated_entry(a1, delta, b1, t, c1);
            }
            prover_cache_u.push(a1);
            prover_cache_w.push(c1);
            verifier_cache.push(b1);
            i += 1;
        }
        (CachedProver::init(prover_cache_u, prover_cache_w), CachedVerifier::init(verifier_cache))
    }

    /// Caches for one extension with `K` base VOLEs and `T` noise
    /// coordinates: `K` correlated entries, then `T` pairs of them.
    pub fn new<R: Ring, const K: usize, const T: usize>(rng: &mut rand::rngs::StdRng, delta: R) -> (r: (
        CachedProver<R>,
        CachedVerifier<R>,
    ))
        requires
            K + 2 * T <= usize::MAX,
        ensures
            r.0@.0.len() == K + 2 * T,
            correlated(r.0@.0, r.0@.1, r.1@, delta),
    {
        let mut prover_cache_u: Vec<R> = Vec::with_capacity(K + (2 * T));
        let mut prover_cache_w: Vec<R> = Vec::with_capacity(K + (2 * T));
        let mut verifier_cache: Vec<R> = Vec::with_capacity(K + (2 * T));
        let mut i: usize = 0;
        while i < K
            invariant
                i <= K,
                prover_cache_u.len() == i,
                correlated(prover_cache_u@, prover_cache_w@, verifier_cache@, delta),
            decreases K - i,
        {
            let a1 = R::sample(rng);
            let b1 = R::sample(rng);
            let tmp = a1.ring_mul(delta);
            let c1 = tmp.ring_add(b1);
            proof {
                lemma_correlated_entry(a1, delta, b1, tmp, c1);
            }
            prover_cache_u.push(a1);
            prover_cache_w.push(c1);
            verifier_cache.push(b1);
            i += 1;
        }
        let mut j: usize = 0;
        while j < T
            invariant
                j <= T,
                K + 2 * T <= usize::MAX,
                prover_cache_u.len() == K + 2 * j,
                correlated(prover_cache_u@, prover_cache_w@, verifier_cache@, delta),
            decreases T - j,
        {
            let a1 = R::sample(rng);
            let b1 = R::sample(rng);
            let tmp = a1.ring_mul(delta);
            let c1 = tmp.ring_add(b1);
            let a2 = R::sample(rng);
            let b2 = R::sample(rng);
            let tmp2 = a2.ring_mul(delta);
            let c2 = tmp2.ring_add(b2);
            proof {
                lemma_correlated_entry(a1, delta, b1, tmp, c1);
                lemma_correlated_entry(a2, delta, b2, tmp2, c2);
            }
            verifier_cache.push(b1);
            verifier_cache.push(b2);
            prover_cache_u.push(a1);
            prover_cache_w.push(c1);
            prover_cache_u.push(a2);
            prover_cache_w.push(c2);
            j += 1;
        }
        (CachedProver::init(prover_cache_u, prover_cache_w), CachedVerifier::init(verifier_cache))
    }
}

/// Taking the last entry from both sides of correlated caches yields a
/// correlated entry and leaves the rest correlated.
pub proof fn lemma_correlated_pop<R: Ring>(u: Seq<R>, w: Seq<R>, v: Seq<R>, delta: R)
    requires
        correlated(u, w, v, delta),
        u.len() > 0,
    ensures
        correlated(u.drop_last(), w.drop_last(), v.drop_last(), delta),
        residue(w.last()) == (residue(u.last()) * residue(delta) + residue(v.last())) % R::modulus(),
{
    assert forall|i: int| 0 <= i < u.len() - 1 implies #[trigger] residue(w.drop_last()[i]) == (
    residue(u.drop_last()[i]) * residue(delta) + residue(v.drop_last()[i])) % R::modulus() by {
        assert(residue(w[i]) == (residue(u[i]) * residue(delta) + residue(v[i])) % R::modulus());
    }
    assert(residue(w[u.len() - 1]) == (residue(u[u.len() - 1]) * residue(delta) + residue(
        v[u.len() - 1],
    )) % R::modulus());
}

/// Appending correlated entries to correlated caches keeps them correlated.
pub proof fn lemma_correlated_append<R: Ring>(
    u: Seq<R>,
    w: Seq<R>,
    v: Seq<R>,
    u2: Seq<R>,
    w2: Seq<R>,
    v2: Seq<R>,
    delta: R,
)
    requires
        correlated(u, w, v, delta),
        correlated(u2, w2, v2, delta),
    ensures
        correlated(u + u2, w + w2, v + v2, delta),
{
    assert forall|i: int| 0 <= i < u.len() + u2.len() implies #[trigger] residue((w + w2)[i]) == (
    residue((u + u2)[i]) * residue(delta) + residue((v + v2)[i])) % R::modulus() by {
        if i < u.len() {
            assert(residue(w[i]) == (residue(u[i]) * residue(delta) + residue(v[i])) % R::modulus());
        } else {
            let j = i - u.len();
            assert(residue(w2[j]) == (residue(u2[j]) * residue(delta) + residue(v2[j]))
                % R::modulus());
        }
    }
}

/// Taking the last `n` entries from both sides of correlated caches yields
/// correlated entries and leaves the rest correlated.
pub proof fn lemma_correlated_split<R: Ring>(u: Seq<R>, w: Seq<R>, v: Seq<R>, delta: R, n: int)
    requires
        correlated(u, w, v, delta),
        0 <= n <= u.len(),
    ensures
        correlated(u.take(u.len() - n), w.take(w.len() - n), v.take(v.len() - n), delta),
        correlated(u.skip(u.len() - n), w.skip(w.len() - n), v.skip(v.len() - n), delta),
{
    let k = u.len() - n;
    assert forall|i: int| 0 <= i < k implies #[trigger] residue(w.take(k)[i]) == (residue(
        u.take(k)[i],
    ) * residue(delta) + residue(v.take(k)[i])) % R::modulus() by {
        assert(residue(w[i]) == (residue(u[i]) * residue(delta) + residue(v[i])) % R::modulus());
    }
    assert forall|i: int| 0 <= i < n implies #[trigger] residue(w.skip(k)[i]) == (residue(
        u.skip(k)[i],
    ) * residue(delta) + residue(v.skip(k)[i])) % R::modulus() by {
        assert(residue(w[k + i]) == (residue(u[k + i]) * residue(delta) + residue(v[k + i]))
            % R::modulus());
    }
}

} // verus!
