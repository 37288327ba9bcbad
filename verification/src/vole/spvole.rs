//! The single-point VOLE: the receiver, and both parties' computations for
//! the consistency check (stage 5 of the batched protocol).  The check's bit
//! vector `chi`, which the protocol expands from a seed with an AES-based
//! generator, is handed in.
use vstd::prelude::*;
use vstd::arithmetic::div_mod::{lemma_add_mod_noop, lemma_mod_twice, lemma_mul_mod_noop_left, lemma_sub_mod_noop};
use crate::ring::{lemma_track_add, lemma_track_neg, lemma_track_self, lemma_track_sub, residue, ring_sum, sum_residues, Ring};

verus! {

/// The receiver of the single-point VOLE; it holds no state.
pub struct Receiver {}

/// `sum_{i < n, chi_i} w_i`: the sum of the entries of `w` that `chi` picks.
pub open spec fn chosen_sum<R: Ring>(chi: Seq<bool>, w: Seq<R>, n: nat) -> int
    decreases n,
{
    if n == 0 {
        0
    } else {
        chosen_sum(chi, w, (n - 1) as nat) + if chi[n - 1] {
            residue(w[n - 1])
        } else {
            0
        }
    }
}

/// Replacing one entry changes the sum of the residues by the difference.
proof fn lemma_sum_residues_update<R: Ring>(s: Seq<R>, a: int, x: R)
    requires
        0 <= a < s.len(),
    ensures
        sum_residues(s.update(a, x)) == sum_residues(s) - residue(s[a]) + residue(x),
    decreases s.len(),
{
    let t = s.update(a, x);
    if a == s.len() - 1 {
        assert(t.drop_last() == s.drop_last());
    } else {
        lemma_sum_residues_update(s.drop_last(), a, x);
        assert(t.drop_last() == s.drop_last().update(a, x));
    }
}

/// Stage 5 of the single-point VOLE, for one instance: the prover fixes the
/// entry `alpha` of its GGM outputs `out_w` to `delta - d - sum of the other
/// entries`, and returns `x* = (chi[alpha] ? beta - x : -x)` and
/// `VP = sum_{i: chi[i]} out_w[i] - z`, where `(x, z)` is its base VOLE.
pub fn stage_5_computation_helper<R: Ring>(
    out_w: &mut [R],
    base_vole: (R, R),
    alpha: usize,
    delta: R,
    d: R,
    chi: &[bool],
    beta: R,
) -> (r: (R, R))
    requires
        alpha < old(out_w)@.len(),
        chi@.len() == old(out_w)@.len(),
    ensures
        final(out_w)@.len() == old(out_w)@.len(),
        forall|i: int| 0 <= i < old(out_w)@.len() && i != alpha ==> #[trigger] final(out_w)@[i] == old(out_w)@[i],
        residue(final(out_w)@[alpha as int]) == (residue(delta) - residue(d) - (sum_residues(old(out_w)@)
            - residue(old(out_w)@[alpha as int]))) % R::modulus(),
        residue(r.0) == (if chi@[alpha as int] {
            residue(beta) - residue(base_vole.0)
        } else {
            -residue(base_vole.0)
        }) % R::modulus(),
        residue(r.1) == (chosen_sum(chi@, final(out_w)@, chi@.len()) - residue(base_vole.1)) % R::modulus(),
{
    let ghost w0 = out_w@;
    let zero = R::zero();
    out_w[alpha] = zero;
    let s = ring_sum(out_w);
    let dd = delta.ring_sub(d);
    let w_alpha = dd.ring_sub(s);
    proof {
        lemma_sum_residues_update(w0, alpha as int, zero);
        zero.lemma_ring_facts();
        vstd::arithmetic::div_mod::lemma_small_mod(0, R::modulus() as nat);
        lemma_track_self(delta);
        lemma_track_self(d);
        lemma_track_sub(delta, d, dd, residue(delta), residue(d));
        lemma_track_sub(dd, s, w_alpha, residue(delta) - residue(d), sum_residues(w0) - residue(w0[alpha as int]));
    }
    out_w[alpha] = w_alpha;
    let (x, z) = base_vole;
    let x_star = if chi[alpha] {
        let t = beta.ring_sub(x);
        proof {
            lemma_track_self(beta);
            lemma_track_self(x);
            lemma_track_sub(beta, x, t, residue(beta), residue(x));
        }
        t
    } else {
        let t = x.ring_neg();
        proof {
            lemma_track_self(x);
            lemma_track_neg(x, t, residue(x));
        }
        t
    };
    let n = out_w.len();
    let mut acc = R::zero();
    let mut i: usize = 0;
    proof {
        acc.lemma_ring_facts();
    }
    while i < n
        invariant
            n == out_w@.len(),
            n == chi@.len(),
            i <= n,
            residue(acc) == chosen_sum(chi@, out_w@, i as nat) % R::modulus(),
        decreases n - i,
    {
        if chi[i] {
            let a2 = acc.ring_add(out_w[i]);
            proof {
                lemma_track_self(out_w@[i as int]);
                lemma_track_add(acc, out_w@[i as int], a2, chosen_sum(chi@, out_w@, i as nat), residue(out_w@[i as int]));
            }
            acc = a2;
        }
        i += 1;
    }
    let vp = acc.ring_sub(z);
    proof {
        lemma_track_self(z);
        lemma_track_sub(acc, z, vp, chosen_sum(chi@, out_w@, n as nat), residue(z));
    }
    (x_star, vp)
}

/// The verifier of the batched single-point VOLE.
pub struct BatchedVerifier {}

impl BatchedVerifier {
    /// Stage 5 of the single-point VOLE, for one instance: the verifier's
    /// `VV = sum_{i: chi[i]} out_v[i]`, written to `vv`.
    pub fn stage_5_computation_helper<R: Ring>(output_size: usize, out_v: &[R], chi: &[bool], vv: &mut R)
        requires
            out_v@.len() == output_size,
            chi@.len() == output_size,
        ensures
            residue(*final(vv)) == chosen_sum(chi@, out_v@, output_size as nat) % R::modulus(),
    {
        let mut acc = R::zero();
        let mut i: usize = 0;
        proof {
            acc.lemma_ring_facts();
        }
        while i < output_size
            invariant
                output_size == out_v@.len(),
                output_size == chi@.len(),
                i <= output_size,
                residue(acc) == chosen_sum(chi@, out_v@, i as nat) % R::modulus(),
            decreases output_size - i,
        {
            if chi[i] {
                let a2 = acc.ring_add(out_v[i]);
                proof {
                    lemma_track_self(out_v@[i as int]);
                    lemma_track_add(acc, out_v@[i as int], a2, chosen_sum(chi@, out_v@, i as nat), residue(out_v@[i as int]));
                }
                acc = a2;
            }
            i += 1;
        }
        *vv = acc;
    }
}

/// `x` and `y` are congruent modulo `m`.
spec fn cong(x: int, y: int, m: int) -> bool {
    x % m == y % m
}

/// Congruences add and subtract.
proof fn lemma_cong_add_sub(p: int, pp: int, q: int, qq: int, m: int)
    requires
        m > 0,
        cong(p, pp, m),
        cong(q, qq, m),
    ensures
        cong(p + q, pp + qq, m),
        cong(p - q, pp - qq, m),
{
    lemma_add_mod_noop(p, q, m);
    lemma_add_mod_noop(pp, qq, m);
    lemma_sub_mod_noop(p, q, m);
    lemma_sub_mod_noop(pp, qq, m);
}

/// Congruences scale.
proof fn lemma_cong_mul(p: int, pp: int, k: int, m: int)
    requires
        m > 0,
        cong(p, pp, m),
    ensures
        cong(k * p, k * pp, m),
{
    lemma_mul_mod_noop_left(p, k, m);
    lemma_mul_mod_noop_left(pp, k, m);
    assert(p * k == k * p && pp * k == k * pp) by (nonlinear_arith);
}

/// A value is congruent to its residue.
proof fn lemma_cong_mod(x: int, m: int)
    requires
        m > 0,
    ensures
        cong(x, x % m, m),
{
    lemma_mod_twice(x, m);
}

/// Two sequences whose entries agree away from `a` have the same sum away
/// from `a`.
proof fn lemma_sum_residues_off<R: Ring>(s: Seq<R>, t: Seq<R>, a: int)
    requires
        s.len() == t.len(),
        0 <= a < s.len(),
        forall|i: int| 0 <= i < s.len() && i != a ==> #[trigger] residue(s[i]) == residue(t[i]),
    ensures
        sum_residues(s) - residue(s[a]) == sum_residues(t) - residue(t[a]),
    decreases s.len(),
{
    if a < s.len() - 1 {
        assert forall|i: int| 0 <= i < s.drop_last().len() && i != a implies #[trigger] residue(s.drop_last()[i])
            == residue(t.drop_last()[i]) by {
            assert(residue(s[i]) == residue(t[i]));
        }
        lemma_sum_residues_off(s.drop_last(), t.drop_last(), a);
        assert(residue(s.last()) == residue(t[s.len() - 1]));
    } else {
        lemma_sum_residues_equal(s.drop_last(), t.drop_last());
    }
}

/// Sequences with the same residues have the same sum.
proof fn lemma_sum_residues_equal<R: Ring>(s: Seq<R>, t: Seq<R>)
    requires
        s.len() == t.len(),
        forall|i: int| 0 <= i < s.len() ==> #[trigger] residue(s[i]) == residue(t[i]),
    ensures
        sum_residues(s) == sum_residues(t),
    decreases s.len(),
{
    if s.len() > 0 {
        assert forall|i: int| 0 <= i < s.drop_last().len() implies #[trigger] residue(s.drop_last()[i])
            == residue(t.drop_last()[i]) by {
            assert(residue(s[i]) == residue(t[i]));
        }
        lemma_sum_residues_equal(s.drop_last(), t.drop_last());
        assert(residue(s.last()) == residue(t[s.len() - 1]));
    }
}

/// Two sequences whose entries agree away from `a` have chosen sums that
/// differ by the entry at `a`, when `chi` picks it.
proof fn lemma_chosen_sum_off<R: Ring>(chi: Seq<bool>, s: Seq<R>, t: Seq<R>, a: int, n: nat)
    requires
        n <= s.len(),
        n <= t.len(),
        n <= chi.len(),
        0 <= a,
        forall|i: int| 0 <= i < n && i != a ==> #[trigger] residue(s[i]) == residue(t[i]),
    ensures
        chosen_sum(chi, s, n) - chosen_sum(chi, t, n) == if a < n && chi[a] {
            residue(s[a]) - residue(t[a])
        } else {
            0
        },
    decreases n,
{
    if n > 0 {
        lemma_chosen_sum_off(chi, s, t, a, (n - 1) as nat);
        if n - 1 != a {
            assert(residue(s[n - 1]) == residue(t[n - 1]));
        }
    }
}

/// The consistency check accepts an honest run: when the prover's GGM
/// outputs `w0` agree with the verifier's `v` away from the point `alpha`,
/// the base VOLEs are correlated (`c = a delta + b`, `z = x delta + y*`), and
/// the verifier's `d` is `b - delta (beta - a) - sum v`, then the prover's
/// stage 5 (`w`, `x*`, `VP`) and the verifier's stage 5 (`VV`) satisfy
/// `VP = VV - (y* - delta x*)`, the value the verifier commits to.
pub proof fn lemma_honest_check_agrees<R: Ring>(
    v: Seq<R>,
    w0: Seq<R>,
    w: Seq<R>,
    chi: Seq<bool>,
    alpha: int,
    beta: R,
    a: R,
    c: R,
    b: R,
    delta: R,
    d: R,
    x: R,
    z: R,
    y_star: R,
    x_star: R,
    vp: R,
    vv: R,
)
    requires
        w0.len() == v.len(),
        w.len() == v.len(),
        chi.len() == v.len(),
        0 <= alpha < v.len(),
        forall|i: int| 0 <= i < v.len() && i != alpha ==> #[trigger] residue(w0[i]) == residue(v[i]),
        residue(c) == (residue(a) * residue(delta) + residue(b)) % R::modulus(),
        residue(z) == (residue(x) * residue(delta) + residue(y_star)) % R::modulus(),
        residue(d) == (residue(b) - residue(delta) * (residue(beta) - residue(a)) - sum_residues(v))
            % R::modulus(),
        forall|i: int| 0 <= i < v.len() && i != alpha ==> #[trigger] w[i] == w0[i],
        residue(w[alpha]) == (residue(c) - residue(d) - (sum_residues(w0) - residue(w0[alpha])))
            % R::modulus(),
        residue(x_star) == (if chi[alpha] {
            residue(beta) - residue(x)
        } else {
            -residue(x)
        }) % R::modulus(),
        residue(vp) == (chosen_sum(chi, w, v.len()) - residue(z)) % R::modulus(),
        residue(vv) == chosen_sum(chi, v, v.len()) % R::modulus(),
    ensures
        residue(vp) == (residue(vv) - (residue(y_star) - residue(delta) * residue(x_star)))
            % R::modulus(),
{
    let m = R::modulus();
    delta.lemma_ring_facts();
    let dd = residue(delta);
    let n = v.len();
    let sv = sum_residues(v);
    let va = residue(v[alpha]);
    let bb = residue(beta);
    // the entry at alpha: w[alpha] = v[alpha] + beta delta
    lemma_sum_residues_off(w0, v, alpha);
    let lhs = residue(c) - residue(d) - (sv - va);
    let mid = (residue(a) * dd + residue(b)) - (residue(b) - dd * (bb - residue(a)) - sv) - (sv - va);
    lemma_cong_mod(residue(a) * dd + residue(b), m);
    lemma_cong_mod(residue(b) - dd * (bb - residue(a)) - sv, m);
    lemma_cong_add_sub(residue(c), residue(a) * dd + residue(b), residue(d), residue(b) - dd * (bb - residue(a)) - sv, m);
    lemma_cong_add_sub(residue(c) - residue(d), (residue(a) * dd + residue(b)) - (residue(b) - dd * (bb - residue(a)) - sv), sv - va, sv - va, m);
    assert(dd * (bb - residue(a)) == dd * bb - residue(a) * dd) by (nonlinear_arith);
    assert(mid == dd * bb + va);
    assert(cong(residue(w[alpha]), dd * bb + va, m)) by {
        lemma_cong_mod(lhs, m);
    }
    // the chosen sums differ by beta delta where chi picks alpha
    assert forall|i: int| 0 <= i < n && i != alpha implies #[trigger] residue(w[i]) == residue(v[i]) by {
        assert(w[i] == w0[i]);
    }
    lemma_chosen_sum_off(chi, w, v, alpha, n);
    let cw = chosen_sum(chi, w, n);
    let cv = chosen_sum(chi, v, n);
    let k: int = if chi[alpha] { 1 } else { 0 };
    assert(cong(cw, cv + k * (dd * bb), m)) by {
        if chi[alpha] {
            lemma_cong_add_sub(residue(w[alpha]), dd * bb + va, va, va, m);
            lemma_cong_add_sub(cv, cv, residue(w[alpha]) - va, dd * bb, m);
        } else {
            lemma_cong_add_sub(cv, cv, 0, 0, m);
        }
    }
    // the prover's VP
    lemma_cong_mod(residue(x) * dd + residue(y_star), m);
    lemma_cong_add_sub(cw, cv + k * (dd * bb), residue(z), residue(x) * dd + residue(y_star), m);
    lemma_cong_mod(cw - residue(z), m);
    // the verifier's value
    let xs = k * bb - residue(x);
    assert(cong(residue(x_star), xs, m)) by {
        if chi[alpha] {
            lemma_cong_mod(bb - residue(x), m);
        } else {
            lemma_cong_mod(-residue(x), m);
        }
    }
    lemma_cong_mul(residue(x_star), xs, dd, m);
    lemma_cong_add_sub(residue(y_star), residue(y_star), dd * residue(x_star), dd * xs, m);
    lemma_cong_mod(cv, m);
    lemma_cong_add_sub(residue(vv), cv, residue(y_star) - dd * residue(x_star), residue(y_star) - dd * xs, m);
    assert(dd * xs == k * (dd * bb) - residue(x) * dd) by (nonlinear_arith)
        requires
            xs == k * bb - residue(x),
    ;
    assert(cv - (residue(y_star) - dd * xs) == (cv + k * (dd * bb)) - (residue(x) * dd + residue(y_star)));
    lemma_cong_mod(residue(vv) - (residue(y_star) - dd * residue(x_star)), m);
}

} // verus!
