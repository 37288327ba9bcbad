//! The multiplication check of the QuickSilver zero-knowledge protocol over a
//! ring `Z/2^k`.  The prover holds authenticated values `(w, m)` with
//! `m = k + w delta` known to the verifier as keys `k`; for each
//! multiplication triple the verifier's random challenge `chi` combines the
//! triples into one check, masked by a random VOLE.  The challenges are
//! drawn from a generator seeded by the verifier and are handed in here.
use vstd::prelude::*;
use vstd::arithmetic::div_mod::{
    lemma_add_mod_noop, lemma_fundamental_div_mod, lemma_mod_multiples_vanish, lemma_mod_twice, lemma_mul_mod_noop,
    lemma_mul_mod_noop_left, lemma_mul_mod_noop_right, lemma_sub_mod_noop,
};
use crate::ring::{lemma_track_add, lemma_track_mul, lemma_track_self, lemma_track_sub, residue, Ring};

verus! {

/// `sum_{i < n} chi_i * (m_alpha_i * m_beta_i)`: the prover's first
/// combination of the triples `((w_alpha, m_alpha), (w_beta, m_beta), (w_gamma, m_gamma))`.
pub open spec fn combined_u<R: Ring>(chis: Seq<R>, triples: Seq<((R, R), (R, R), (R, R))>, n: nat) -> int
    decreases n,
{
    if n == 0 {
        0
    } else {
        let t = triples[n - 1];
        combined_u(chis, triples, (n - 1) as nat) + residue(chis[n - 1]) * (residue(t.0.1) * residue(
            t.1.1,
        ))
    }
}

/// `sum_{i < n} chi_i * (w_beta_i * m_alpha_i + w_alpha_i * m_beta_i - m_gamma_i)`:
/// the prover's second combination of the triples.
pub open spec fn combined_v<R: Ring>(chis: Seq<R>, triples: Seq<((R, R), (R, R), (R, R))>, n: nat) -> int
    decreases n,
{
    if n == 0 {
        0
    } else {
        let t = triples[n - 1];
        combined_v(chis, triples, (n - 1) as nat) + residue(chis[n - 1]) * (residue(t.1.0) * residue(
            t.0.1,
        ) + residue(t.0.0) * residue(t.1.1) - residue(t.2.1))
    }
}

/// `sum_{i < n} chi_i * (k_alpha_i * k_beta_i + k_gamma_i * delta)`: the
/// verifier's combination of the keys `(k_alpha, k_beta, k_gamma)`.
pub open spec fn combined_w<R: Ring>(chis: Seq<R>, keys: Seq<(R, R, R)>, delta: R, n: nat) -> int
    decreases n,
{
    if n == 0 {
        0
    } else {
        let t = keys[n - 1];
        combined_w(chis, keys, delta, (n - 1) as nat) + (residue(t.0) * residue(t.1) + residue(t.2)
            * residue(delta)) * residue(chis[n - 1])
    }
}

/// The prover's side of the multiplication check: with the challenges
/// `chis`, one per triple, and the random VOLE `mask = (a1, a0)`, returns
/// `(U, V)` with `U = sum chi (m_alpha m_beta) + a0` and
/// `V = sum chi (w_beta m_alpha + w_alpha m_beta - m_gamma) + a1`.
pub fn prover_check_multiply<R: Ring>(
    chis: &[R],
    triples: &[((R, R), (R, R), (R, R))],
    mask: (R, R),
) -> (r: (R, R))
    requires
        chis@.len() == triples@.len(),
    ensures
        residue(r.0) == (combined_u(chis@, triples@, triples@.len()) + residue(mask.1)) % R::modulus(),
        residue(r.1) == (combined_v(chis@, triples@, triples@.len()) + residue(mask.0)) % R::modulus(),
{
    let mut u = R::zero();
    let mut v = R::zero();
    let n = triples.len();
    let mut i: usize = 0;
    proof {
        u.lemma_ring_facts();
        vstd::arithmetic::div_mod::lemma_small_mod(0, R::modulus() as nat);
    }
    while i < n
        invariant
            n == triples@.len(),
            n == chis@.len(),
            i <= n,
            residue(u) == combined_u(chis@, triples@, i as nat) % R::modulus(),
            residue(v) == combined_v(chis@, triples@, i as nat) % R::modulus(),
        decreases n - i,
    {
        let chi = chis[i];
        let t = triples[i];
        let w_alpha = t.0.0;
        let m_alpha = t.0.1;
        let w_beta = t.1.0;
        let m_beta = t.1.1;
        let m_gamma = t.2.1;
        let a0 = m_alpha.ring_mul(m_beta);
        let p1 = w_beta.ring_mul(m_alpha);
        let p2 = w_alpha.ring_mul(m_beta);
        let s12 = p1.ring_add(p2);
        let a1 = s12.ring_sub(m_gamma);
        let cu = chi.ring_mul(a0);
        let cv = chi.ring_mul(a1);
        let u2 = u.ring_add(cu);
        let v2 = v.ring_add(cv);
        proof {
            let (rc, rwa, rma, rwb, rmb, rmg) = (
                residue(chi),
                residue(w_alpha),
                residue(m_alpha),
                residue(w_beta),
                residue(m_beta),
                residue(m_gamma),
            );
            lemma_track_self(chi);
            lemma_track_self(w_alpha);
            lemma_track_self(m_alpha);
            lemma_track_self(w_beta);
            lemma_track_self(m_beta);
            lemma_track_self(m_gamma);
            lemma_track_mul(m_alpha, m_beta, a0, rma, rmb);
            lemma_track_mul(w_beta, m_alpha, p1, rwb, rma);
            lemma_track_mul(w_alpha, m_beta, p2, rwa, rmb);
            lemma_track_add(p1, p2, s12, rwb * rma, rwa * rmb);
            lemma_track_sub(s12, m_gamma, a1, rwb * rma + rwa * rmb, rmg);
            lemma_track_mul(chi, a0, cu, rc, rma * rmb);
            lemma_track_mul(chi, a1, cv, rc, rwb * rma + rwa * rmb - rmg);
            lemma_track_add(u, cu, u2, combined_u(chis@, triples@, i as nat), rc * (rma * rmb));
            lemma_track_add(v, cv, v2, combined_v(chis@, triples@, i as nat), rc * (rwb * rma + rwa * rmb - rmg));
        }
        u = u2;
        v = v2;
        i += 1;
    }
    let (a1, a0) = mask;
    let ru = u.ring_add(a0);
    let rv = v.ring_add(a1);
    proof {
        lemma_track_self(a0);
        lemma_track_self(a1);
        lemma_track_add(u, a0, ru, combined_u(chis@, triples@, n as nat), residue(a0));
        lemma_track_add(v, a1, rv, combined_v(chis@, triples@, n as nat), residue(a1));
    }
    (ru, rv)
}

/// The verifier's side of the multiplication check: with the same
/// challenges `chis`, one per triple of keys, its secret `delta` and the key
/// `b` of the random VOLE, computes `W = sum (k_alpha k_beta + k_gamma delta) chi + b`
/// and accepts the prover's `(u, v)` exactly when `W = u - v delta` in the ring.
pub fn verifier_check_multiply<R: Ring>(chis: &[R], keys: &[(R, R, R)], delta: R, b: R, u: R, v: R) -> (ok:
    bool)
    requires
        chis@.len() == keys@.len(),
    ensures
        ok == ((combined_w(chis@, keys@, delta, keys@.len()) + residue(b)) % R::modulus() == (residue(u)
            - residue(v) * residue(delta)) % R::modulus()),
{
    let mut w = R::zero();
    let n = keys.len();
    let mut i: usize = 0;
    proof {
        w.lemma_ring_facts();
        vstd::arithmetic::div_mod::lemma_small_mod(0, R::modulus() as nat);
        lemma_track_self(delta);
    }
    while i < n
        invariant
            n == keys@.len(),
            n == chis@.len(),
            i <= n,
            residue(delta) == residue(delta) % R::modulus(),
            residue(w) == combined_w(chis@, keys@, delta, i as nat) % R::modulus(),
        decreases n - i,
    {
        let chi = chis[i];
        let (k_alpha, k_beta, k_gamma) = keys[i];
        let p = k_alpha.ring_mul(k_beta);
        let q = k_gamma.ring_mul(delta);
        let bi = p.ring_add(q);
        let t = bi.ring_mul(chi);
        let w2 = w.ring_add(t);
        proof {
            let (rc, ra, rb, rg, rd) = (residue(chi), residue(k_alpha), residue(k_beta), residue(k_gamma), residue(delta));
            lemma_track_self(chi);
            lemma_track_self(k_alpha);
            lemma_track_self(k_beta);
            lemma_track_self(k_gamma);
            lemma_track_mul(k_alpha, k_beta, p, ra, rb);
            lemma_track_mul(k_gamma, delta, q, rg, rd);
            lemma_track_add(p, q, bi, ra * rb, rg * rd);
            lemma_track_mul(bi, chi, t, ra * rb + rg * rd, rc);
            lemma_track_add(w, t, w2, combined_w(chis@, keys@, delta, i as nat), (ra * rb + rg * rd) * rc);
        }
        w = w2;
        i += 1;
    }
    let total = w.ring_add(b);
    let vd = v.ring_mul(delta);
    let expected = u.ring_sub(vd);
    proof {
        lemma_track_self(b);
        lemma_track_self(u);
        lemma_track_self(v);
        lemma_track_add(w, b, total, combined_w(chis@, keys@, delta, n as nat), residue(b));
        lemma_track_mul(v, delta, vd, residue(v), residue(delta));
        lemma_track_sub(u, vd, expected, residue(u), residue(v) * residue(delta));
    }
    total.ring_eq(&expected)
}

/// With `e = k + w delta`, the unmasked combinations of one triple leave
/// `k_alpha k_beta + k_gamma delta + (w_gamma - w_alpha w_beta) delta^2`.
proof fn lemma_expand_keys(ka: int, kb: int, kg: int, wa: int, wb: int, wg: int, d: int)
    ensures
        (ka + wa * d) * (kb + wb * d) - (wb * (ka + wa * d) + wa * (kb + wb * d) - (kg + wg * d)) * d == ka * kb
            + kg * d + (wg - wa * wb) * (d * d),
{
    let a = wa * d;
    let b = wb * d;
    let x = wb * ka + wb * a;
    let y = wa * kb + wa * b;
    let z = kg + wg * d;
    assert((ka + a) * (kb + b) == ka * kb + ka * b + a * kb + a * b) by (nonlinear_arith)
        requires
            a == wa * d,
            b == wb * d,
            x == wb * ka + wb * a,
            y == wa * kb + wa * b,
            z == kg + wg * d,
    ;
    assert(wb * (ka + a) == wb * ka + wb * a) by (nonlinear_arith)
        requires
            a == wa * d,
            b == wb * d,
            x == wb * ka + wb * a,
            y == wa * kb + wa * b,
            z == kg + wg * d,
    ;
    assert(wa * (kb + b) == wa * kb + wa * b) by (nonlinear_arith)
        requires
            a == wa * d,
            b == wb * d,
            x == wb * ka + wb * a,
            y == wa * kb + wa * b,
            z == kg + wg * d,
    ;
    assert((x + y - z) * d == x * d + y * d - z * d) by (nonlinear_arith)
        requires
            a == wa * d,
            b == wb * d,
            x == wb * ka + wb * a,
            y == wa * kb + wa * b,
            z == kg + wg * d,
    ;
    assert(x * d == (wb * ka) * d + (wb * a) * d) by (nonlinear_arith)
        requires
            a == wa * d,
            b == wb * d,
            x == wb * ka + wb * a,
            y == wa * kb + wa * b,
            z == kg + wg * d,
    ;
    assert(y * d == (wa * kb) * d + (wa * b) * d) by (nonlinear_arith)
        requires
            a == wa * d,
            b == wb * d,
            x == wb * ka + wb * a,
            y == wa * kb + wa * b,
            z == kg + wg * d,
    ;
    assert(z * d == kg * d + (wg * d) * d) by (nonlinear_arith)
        requires
            a == wa * d,
            b == wb * d,
            x == wb * ka + wb * a,
            y == wa * kb + wa * b,
            z == kg + wg * d,
    ;
    assert(ka * b == (wb * ka) * d) by (nonlinear_arith)
        requires
            a == wa * d,
            b == wb * d,
            x == wb * ka + wb * a,
            y == wa * kb + wa * b,
            z == kg + wg * d,
    ;
    assert(a * kb == (wa * kb) * d) by (nonlinear_arith)
        requires
            a == wa * d,
            b == wb * d,
            x == wb * ka + wb * a,
            y == wa * kb + wa * b,
            z == kg + wg * d,
    ;
    assert(a * b == wa * wb * (d * d)) by (nonlinear_arith)
        requires
            a == wa * d,
            b == wb * d,
            x == wb * ka + wb * a,
            y == wa * kb + wa * b,
            z == kg + wg * d,
    ;
    assert((wb * a) * d == wa * wb * (d * d)) by (nonlinear_arith)
        requires
            a == wa * d,
            b == wb * d,
            x == wb * ka + wb * a,
            y == wa * kb + wa * b,
            z == kg + wg * d,
    ;
    assert((wa * b) * d == wa * wb * (d * d)) by (nonlinear_arith)
        requires
            a == wa * d,
            b == wb * d,
            x == wb * ka + wb * a,
            y == wa * kb + wa * b,
            z == kg + wg * d,
    ;
    assert((wg * d) * d == wg * (d * d)) by (nonlinear_arith)
        requires
            a == wa * d,
            b == wb * d,
            x == wb * ka + wb * a,
            y == wa * kb + wa * b,
            z == kg + wg * d,
    ;
    assert((wg - wa * wb) * (d * d) == wg * (d * d) - wa * wb * (d * d)) by (nonlinear_arith)
        requires
            a == wa * d,
            b == wb * d,
            x == wb * ka + wb * a,
            y == wa * kb + wa * b,
            z == kg + wg * d,
    ;
}

/// One triple's share of the check: if the prover's MACs are
/// `m = k + w delta` of the verifier's keys and `w_gamma = w_alpha w_beta`,
/// all modulo `q`, then `chi (m_alpha m_beta) - chi (w_beta m_alpha +
/// w_alpha m_beta - m_gamma) delta` is `(k_alpha k_beta + k_gamma delta) chi`.
proof fn lemma_check_term(
    c: int,
    wa: int,
    ma: int,
    ka: int,
    wb: int,
    mb: int,
    kb: int,
    wg: int,
    mg: int,
    kg: int,
    d: int,
    q: int,
)
    requires
        q > 0,
        ma == (ka + wa * d) % q,
        mb == (kb + wb * d) % q,
        mg == (kg + wg * d) % q,
        wg == (wa * wb) % q,
    ensures
        (c * (ma * mb) - c * (wb * ma + wa * mb - mg) * d) % q == ((ka * kb + kg * d) * c) % q,
{
    let ea = ka + wa * d;
    let eb = kb + wb * d;
    let eg = kg + wg * d;
    lemma_mod_twice(ea, q);
    lemma_mod_twice(eb, q);
    lemma_mod_twice(eg, q);
    // m_alpha m_beta, scaled by chi
    lemma_mul_mod_noop(ma, mb, q);
    lemma_mul_mod_noop(ea, eb, q);
    let t1 = c * (ma * mb);
    let u1 = c * (ea * eb);
    lemma_mul_mod_noop_right(c, ma * mb, q);
    lemma_mul_mod_noop_right(c, ea * eb, q);
    assert(t1 % q == u1 % q);
    // the second combination, scaled by chi and delta
    lemma_mul_mod_noop_right(wb, ma, q);
    lemma_mul_mod_noop_right(wb, ea, q);
    lemma_mul_mod_noop_right(wa, mb, q);
    lemma_mul_mod_noop_right(wa, eb, q);
    let s1 = wb * ma + wa * mb - mg;
    let s2 = wb * ea + wa * eb - eg;
    lemma_add_mod_noop(wb * ma, wa * mb, q);
    lemma_add_mod_noop(wb * ea, wa * eb, q);
    lemma_sub_mod_noop(wb * ma + wa * mb, mg, q);
    lemma_sub_mod_noop(wb * ea + wa * eb, eg, q);
    assert(s1 % q == s2 % q);
    lemma_mul_mod_noop_right(c, s1, q);
    lemma_mul_mod_noop_right(c, s2, q);
    lemma_mul_mod_noop_left(c * s1, d, q);
    lemma_mul_mod_noop_left(c * s2, d, q);
    let t2 = c * s1 * d;
    let u2 = c * s2 * d;
    assert(t2 % q == u2 % q);
    lemma_sub_mod_noop(t1, t2, q);
    lemma_sub_mod_noop(u1, u2, q);
    assert((t1 - t2) % q == (u1 - u2) % q);
    // the unmasked combinations leave the keys
    lemma_expand_keys(ka, kb, kg, wa, wb, wg, d);
    let base = ka * kb + kg * d;
    let g = ea * eb - s2 * d;
    assert(g == base + (wg - wa * wb) * (d * d));
    assert(u1 - u2 == c * g) by (nonlinear_arith)
        requires
            u1 == c * (ea * eb),
            u2 == c * s2 * d,
            g == ea * eb - s2 * d,
    ;
    lemma_fundamental_div_mod(wa * wb, q);
    let qw = (wa * wb) / q;
    assert(wa * wb == q * qw + wg);
    assert(q * (0 - qw) == 0 - q * qw) by (nonlinear_arith);
    assert(wg - wa * wb == q * (0 - qw));
    let z = c * ((0 - qw) * (d * d));
    assert(c * g == base * c + q * z) by (nonlinear_arith)
        requires
            g == base + (wg - wa * wb) * (d * d),
            wg - wa * wb == q * (0 - qw),
            z == c * ((0 - qw) * (d * d)),
    ;
    lemma_mod_multiples_vanish(z, base * c, q);
}

/// The prover's triples are correct for the verifier's keys: each MAC is
/// `m = k + w delta` and each product wire holds `w_alpha w_beta`, in the ring.
pub open spec fn triples_correct<R: Ring>(
    triples: Seq<((R, R), (R, R), (R, R))>,
    keys: Seq<(R, R, R)>,
    delta: R,
) -> bool {
    &&& triples.len() == keys.len()
    &&& forall|i: int|
        0 <= i < triples.len() ==> {
            let t = #[trigger] triples[i];
            let k = keys[i];
            &&& residue(t.0.1) == (residue(k.0) + residue(t.0.0) * residue(delta)) % R::modulus()
            &&& residue(t.1.1) == (residue(k.1) + residue(t.1.0) * residue(delta)) % R::modulus()
            &&& residue(t.2.1) == (residue(k.2) + residue(t.2.0) * residue(delta)) % R::modulus()
            &&& residue(t.2.0) == (residue(t.0.0) * residue(t.1.0)) % R::modulus()
        }
}

/// Summed over the triples, the prover's combinations meet the verifier's:
/// `U - V delta = W` modulo the modulus.
proof fn lemma_check_sums<R: Ring>(
    chis: Seq<R>,
    triples: Seq<((R, R), (R, R), (R, R))>,
    keys: Seq<(R, R, R)>,
    delta: R,
    n: nat,
)
    requires
        triples_correct(triples, keys, delta),
        n <= triples.len(),
    ensures
        (combined_u(chis, triples, n) - combined_v(chis, triples, n) * residue(delta)) % R::modulus()
            == combined_w(chis, keys, delta, n) % R::modulus(),
    decreases n,
{
    let q = R::modulus();
    delta.lemma_ring_facts();
    if n > 0 {
        let j = (n - 1) as int;
        lemma_check_sums(chis, triples, keys, delta, (n - 1) as nat);
        let t = triples[j];
        let k = keys[j];
        let d = residue(delta);
        let c = residue(chis[j]);
        lemma_check_term(
            c,
            residue(t.0.0),
            residue(t.0.1),
            residue(k.0),
            residue(t.1.0),
            residue(t.1.1),
            residue(k.1),
            residue(t.2.0),
            residue(t.2.1),
            residue(k.2),
            d,
            q,
        );
        let u0 = combined_u(chis, triples, (n - 1) as nat);
        let v0 = combined_v(chis, triples, (n - 1) as nat);
        let w0 = combined_w(chis, keys, delta, (n - 1) as nat);
        let ut = c * (residue(t.0.1) * residue(t.1.1));
        let vt = c * (residue(t.1.0) * residue(t.0.1) + residue(t.0.0) * residue(t.1.1) - residue(t.2.1));
        let wt = (residue(k.0) * residue(k.1) + residue(k.2) * d) * c;
        assert(combined_u(chis, triples, n) == u0 + ut);
        assert(combined_v(chis, triples, n) == v0 + vt);
        assert(combined_w(chis, keys, delta, n) == w0 + wt);
        assert((u0 + ut) - (v0 + vt) * d == (u0 - v0 * d) + (ut - vt * d)) by (nonlinear_arith);
        assert(c * (residue(t.1.0) * residue(t.0.1) + residue(t.0.0) * residue(t.1.1) - residue(t.2.1)) * d
            == vt * d);
        lemma_add_mod_noop(u0 - v0 * d, ut - vt * d, q);
        lemma_add_mod_noop(w0, wt, q);
    }
}

/// Completeness of the multiplication check: when the prover's triples are
/// correct for the verifier's keys and the random VOLE `(a1, a0)` of the
/// prover and `b` of the verifier satisfies `a0 = b + a1 delta`, the `(u, v)`
/// that `prover_check_multiply` returns make `verifier_check_multiply`, with
/// the same challenges, accept.
pub proof fn lemma_multiplication_check_complete<R: Ring>(
    chis: Seq<R>,
    triples: Seq<((R, R), (R, R), (R, R))>,
    keys: Seq<(R, R, R)>,
    delta: R,
    a1: R,
    a0: R,
    b: R,
    u: R,
    v: R,
)
    requires
        triples_correct(triples, keys, delta),
        chis.len() == triples.len(),
        residue(a0) == (residue(b) + residue(a1) * residue(delta)) % R::modulus(),
        residue(u) == (combined_u(chis, triples, triples.len()) + residue(a0)) % R::modulus(),
        residue(v) == (combined_v(chis, triples, triples.len()) + residue(a1)) % R::modulus(),
    ensures
        (combined_w(chis, keys, delta, keys.len()) + residue(b)) % R::modulus() == (residue(u) - residue(v)
            * residue(delta)) % R::modulus(),
{
    let q = R::modulus();
    let n = triples.len();
    delta.lemma_ring_facts();
    lemma_check_sums(chis, triples, keys, delta, n);
    let su = combined_u(chis, triples, n);
    let sv = combined_v(chis, triples, n);
    let sw = combined_w(chis, keys, delta, n);
    let d = residue(delta);
    let ra0 = residue(a0);
    let ra1 = residue(a1);
    let rb = residue(b);
    let uu = su + ra0;
    let vv = sv + ra1;
    // u - v d == uu - vv d  (mod q)
    lemma_mul_mod_noop_left(vv, d, q);
    lemma_sub_mod_noop(uu, vv * d, q);
    lemma_mod_twice(uu, q);
    lemma_mod_twice(vv * d, q);
    lemma_sub_mod_noop(uu % q, (vv % q) * d, q);
    assert((residue(u) - residue(v) * d) % q == (uu - vv * d) % q);
    // uu - vv d == (su - sv d) + (a0 - a1 d)
    assert(uu - vv * d == (su - sv * d) + (ra0 - ra1 * d)) by (nonlinear_arith)
        requires
            uu == su + ra0,
            vv == sv + ra1,
    ;
    lemma_add_mod_noop(su - sv * d, ra0 - ra1 * d, q);
    // a0 - a1 d == b  (mod q)
    lemma_sub_mod_noop(rb + ra1 * d, ra1 * d, q);
    lemma_mod_twice(rb + ra1 * d, q);
    lemma_sub_mod_noop(ra0, ra1 * d, q);
    assert((ra0 - ra1 * d) % q == rb % q);
    lemma_add_mod_noop(sw, rb, q);
}

} // verus!
