//! The VOLE extension step: the prover multiplies its base VOLEs by the code
//! and adds the single-point VOLEs, which keeps the outputs correlated with
//! the verifier's, and the receiver of the extension.
use vstd::prelude::*;
use vstd::arithmetic::div_mod::{lemma_add_mod_noop, lemma_mod_twice, lemma_small_mod};
use crate::ring::{lemma_track_add, lemma_track_self, residue, Ring};
use crate::vole::cache::correlated;
use crate::vole::code::{code_product, code_wf, column, column_sum, lemma_code_product_correlated, CodeModel, LLCode};

verus! {

/// The receiver of the VOLE extension; it holds no state.
pub struct Receiver {}

/// The number of instances `i < n` whose point `i * s + alphas[i]` is `j`.
pub open spec fn hits(alphas: Seq<usize>, s: nat, j: int, n: nat) -> nat
    decreases n,
{
    if n == 0 {
        0
    } else {
        hits(alphas, s, j, (n - 1) as nat) + if (n - 1) * s + alphas[n - 1] == j {
            1nat
        } else {
            0nat
        }
    }
}

/// The prover's extension: `x = A u` with the noise `e` added at the point
/// `i * s + alphas[i]` of each single-point VOLE `i`, and `z = A w + c`, for
/// the code `A`, the base VOLEs `(u, w)` and the single-point VOLEs `(e, c)`.
pub fn extend_outputs<R: Ring + Send + Sync>(
    code: &LLCode<R>,
    u: &[R],
    w: &[R],
    alphas: &[usize],
    s: usize,
    e: &[R],
    c: &[R],
) -> (r: (Vec<R>, Vec<R>))
    requires
        code_wf(code@),
        u@.len() == code@.rows,
        w@.len() == code@.rows,
        e@.len() == code@.columns,
        c@.len() == code@.columns,
        forall|i: int| 0 <= i < alphas@.len() ==> i * s + #[trigger] alphas@[i] < code@.columns,
    ensures
        r.0@.len() == code@.columns,
        r.1@.len() == code@.columns,
        forall|j: int|
            0 <= j < code@.columns ==> #[trigger] residue(r.0@[j]) == (code_product(code@.entries, code@.d, j, u@)
                + hits(alphas@, s as nat, j, alphas@.len()) * residue(e@[j])) % R::modulus(),
        forall|j: int|
            0 <= j < code@.columns ==> #[trigger] r.1@[j].raw() == (column_sum(
                column(code@.entries, code@.d, j),
                w@,
                code@.d,
            ) + residue(c@[j])) % R::modulus(),
{
    let mut x = code.mul(u);
    let ghost m = R::modulus();
    proof {
        assert forall|j: int| 0 <= j < code@.columns implies #[trigger] residue(x@[j]) == (code_product(
            code@.entries,
            code@.d,
            j,
            u@,
        ) + hits(alphas@, s as nat, j, 0) * residue(e@[j])) % m by {
            assert(x@[j].raw() == code_product(code@.entries, code@.d, j, u@));
            assert(hits(alphas@, s as nat, j, 0) == 0);
            x@[j].lemma_ring_facts();
            lemma_mod_twice(column_sum(column(code@.entries, code@.d, j), u@, code@.d), m);
        }
    }
    let mut i: usize = 0;
    while i < alphas.len()
        invariant
            i <= alphas@.len(),
            m == R::modulus(),
            x@.len() == code@.columns,
            e@.len() == code@.columns,
            forall|k: int| 0 <= k < alphas@.len() ==> k * s + #[trigger] alphas@[k] < code@.columns,
            forall|j: int|
                0 <= j < code@.columns ==> #[trigger] residue(x@[j]) == (code_product(code@.entries, code@.d, j, u@)
                    + hits(alphas@, s as nat, j, i as nat) * residue(e@[j])) % m,
        decreases alphas@.len() - i,
    {
        assert(x@.len() == x.len());
        assert(i * s + alphas@[i as int] < code@.columns);
        assert(i * s <= i * s + alphas@[i as int]);
        let index = i * s + alphas[i];
        let ghost before = x@;
        let sum = x[index].ring_add(e[index]);
        x.set(index, sum);
        proof {
            let ghost p = code_product(code@.entries, code@.d, index as int, u@);
            let ghost h = hits(alphas@, s as nat, index as int, i as nat);
            let ghost er = residue(e@[index as int]);
            lemma_track_self(e@[index as int]);
            lemma_track_add(before[index as int], e@[index as int], sum, p + h * er, er);
            assert(p + h * er + er == p + (h + 1) * er) by (nonlinear_arith);
            assert forall|j: int| 0 <= j < code@.columns implies #[trigger] residue(x@[j]) == (code_product(
                code@.entries,
                code@.d,
                j,
                u@,
            ) + hits(alphas@, s as nat, j, (i + 1) as nat) * residue(e@[j])) % m by {
                if j != index {
                    assert(x@[j] == before[j]);
                }
            }
        }
        i += 1;
    }
    let z = code.mul_add(w, c);
    (x, z)
}

/// The extension keeps the VOLE correlation: if the base VOLEs satisfy
/// `w = u delta + v`, the single-point VOLEs satisfy `c = e delta + b`, and
/// `e` is zero except where exactly one point falls, then the prover's
/// outputs `(x, z)` of the extension and the verifier's `y = A v + b` satisfy
/// `z = x delta + y`.
pub proof fn lemma_extension_correlated<R: Ring>(
    code: CodeModel<R>,
    u: Seq<R>,
    w: Seq<R>,
    v: Seq<R>,
    delta: R,
    e: Seq<R>,
    c: Seq<R>,
    b: Seq<R>,
    alphas: Seq<usize>,
    s: nat,
    x: Seq<R>,
    z: Seq<R>,
    y: Seq<R>,
)
    requires
        code_wf(code),
        u.len() == code.rows,
        correlated(u, w, v, delta),
        e.len() == code.columns,
        correlated(e, c, b, delta),
        forall|j: int| 0 <= j < code.columns ==> hits(alphas, s, j, alphas.len()) == 1 || #[trigger] residue(e[j]) == 0,
        x.len() == code.columns,
        z.len() == code.columns,
        y.len() == code.columns,
        forall|j: int|
            0 <= j < code.columns ==> #[trigger] residue(x[j]) == (code_product(code.entries, code.d, j, u)
                + hits(alphas, s, j, alphas.len()) * residue(e[j])) % R::modulus(),
        forall|j: int|
            0 <= j < code.columns ==> #[trigger] z[j].raw() == (column_sum(column(code.entries, code.d, j), w, code.d)
                + residue(c[j])) % R::modulus(),
        forall|j: int|
            0 <= j < code.columns ==> #[trigger] y[j].raw() == (column_sum(column(code.entries, code.d, j), v, code.d)
                + residue(b[j])) % R::modulus(),
    ensures
        correlated(x, z, y, delta),
{
    let m = R::modulus();
    delta.lemma_ring_facts();
    assert forall|j: int| 0 <= j < x.len() implies #[trigger] residue(z[j]) == (residue(x[j]) * residue(delta)
        + residue(y[j])) % m by {
        assert(residue(c[j]) == (residue(e[j]) * residue(delta) + residue(b[j])) % m);
        assert(j * code.d + code.d <= code.entries.len()) by (nonlinear_arith)
            requires
                0 <= j < code.columns,
                code.entries.len() == code.columns * code.d,
        ;
        lemma_code_product_correlated(code.entries, code.d, j, u, w, v, e[j], c[j], b[j], delta);
        let su = column_sum(column(code.entries, code.d, j), u, code.d);
        let sw = column_sum(column(code.entries, code.d, j), w, code.d);
        let sv = column_sum(column(code.entries, code.d, j), v, code.d);
        let er = residue(e[j]);
        let h = hits(alphas, s, j, alphas.len());
        lemma_mod_twice(sw + residue(c[j]), m);
        lemma_mod_twice(sv + residue(b[j]), m);
        lemma_add_mod_noop(su, er, m);
        lemma_mod_twice(e[j].raw(), m);
        lemma_mod_twice(su, m);
        if h == 1 {
            assert(h * er == er);
        } else {
            assert(er == 0);
            assert(h * er == 0) by (nonlinear_arith)
                requires
                    er == 0,
            ;
            lemma_small_mod(0, m as nat);
        }
        assert(residue(x[j]) == (su + er) % m);
    }
}

} // verus!
