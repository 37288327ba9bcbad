//! The local linear code of the LPN assumption: a matrix with `d` nonzero
//! entries in each column, stored column by column as (row, coefficient)
//! pairs.  Multiplying a vector of VOLE correlations by the code keeps them
//! correlated, which is how the extension turns few base VOLEs into many.
use vstd::prelude::*;
use vstd::arithmetic::div_mod::{lemma_add_mod_noop, lemma_mod_twice, lemma_mul_mod_noop};
use rayon::iter::{IndexedParallelIterator, ParallelIterator};
use rayon::slice::ParallelSlice;
use crate::ring::{residue, Ring};
use crate::vole::cache::correlated;

verus! {

/// `sum_{k < n} coefficient_k * v[row_k]` over the first `n` entries of a
/// column, with each factor taken as its ring element.
pub open spec fn column_sum<R: Ring>(col: Seq<(usize, R)>, v: Seq<R>, n: nat) -> int
    decreases n,
{
    if n == 0 {
        0
    } else {
        column_sum(col, v, (n - 1) as nat) + residue(col[n - 1].1) * residue(v[col[n - 1].0 as int])
    }
}

/// Column `j` of a code with `d` entries per column.
pub open spec fn column<R>(indices: Seq<(usize, R)>, d: nat, j: int) -> Seq<(usize, R)> {
    indices.subrange(j * d, j * d + d)
}

/// Entry `j` of the product of the code with `v`, as a ring element.
pub open spec fn code_product<R: Ring>(indices: Seq<(usize, R)>, d: nat, j: int, v: Seq<R>) -> int {
    column_sum(column(indices, d, j), v, d) % R::modulus()
}

/// Every row index of the column is a valid index into `v`.
pub open spec fn rows_below<R>(col: Seq<(usize, R)>, n: int) -> bool {
    forall|k: int| 0 <= k < col.len() ==> #[trigger] col[k].0 < n
}

/// One step of a column sum computed with ring operations.
proof fn lemma_column_step<R: Ring>(cord: R, c: R, x: R, t: R, next: R, s: int)
    requires
        residue(cord) == s % R::modulus(),
        t.raw() % R::modulus() == (c.raw() * x.raw()) % R::modulus(),
        next.raw() % R::modulus() == (cord.raw() + t.raw()) % R::modulus(),
    ensures
        residue(next) == (s + residue(c) * residue(x)) % R::modulus(),
{
    let m = R::modulus();
    c.lemma_ring_facts();
    lemma_add_mod_noop(cord.raw(), t.raw(), m);
    lemma_mod_twice(c.raw() * x.raw(), m);
    lemma_add_mod_noop(cord.raw(), c.raw() * x.raw(), m);
    lemma_mul_mod_noop(c.raw(), x.raw(), m);
    lemma_add_mod_noop(cord.raw(), residue(c) * residue(x), m);
    lemma_add_mod_noop(s, residue(c) * residue(x), m);
    lemma_mod_twice(residue(c) * residue(x), m);
}

/// The sum of a column against `v`, reduced.
pub fn column_dot<R: Ring>(col: &[(usize, R)], v: &[R]) -> (r: R)
    requires
        rows_below(col@, v@.len() as int),
    ensures
        r.raw() == column_sum(col@, v@, col@.len()) % R::modulus(),
{
    let mut cord = R::zero();
    let mut i: usize = 0;
    proof {
        cord.lemma_ring_facts();
        vstd::arithmetic::div_mod::lemma_small_mod(0, R::modulus() as nat);
    }
    while i < col.len()
        invariant
            i <= col.len(),
            rows_below(col@, v@.len() as int),
            residue(cord) == column_sum(col@, v@, i as nat) % R::modulus(),
        decreases col.len() - i,
    {
        let entry = col[i];
        assert(entry.0 < v.len());
        let x = v[entry.0];
        let t = entry.1.ring_mul(x);
        let next = cord.ring_add(t);
        proof {
            lemma_column_step(cord, entry.1, x, t, next, column_sum(col@, v@, i as nat));
        }
        cord = next;
        i += 1;
    }
    cord.reduce()
}

/// The sum of a column against `v`, plus `a[j]`, reduced.
pub fn column_dot_add<R: Ring>(col: &[(usize, R)], v: &[R], a: &[R], j: usize) -> (r: R)
    requires
        rows_below(col@, v@.len() as int),
        j < a@.len(),
    ensures
        r.raw() == (column_sum(col@, v@, col@.len()) + residue(a@[j as int])) % R::modulus(),
{
    let mut cord = R::zero();
    let mut i: usize = 0;
    proof {
        cord.lemma_ring_facts();
        vstd::arithmetic::div_mod::lemma_small_mod(0, R::modulus() as nat);
    }
    while i < col.len()
        invariant
            i <= col.len(),
            rows_below(col@, v@.len() as int),
            residue(cord) == column_sum(col@, v@, i as nat) % R::modulus(),
        decreases col.len() - i,
    {
        let entry = col[i];
        assert(entry.0 < v.len());
        let x = v[entry.0];
        let t = entry.1.ring_mul(x);
        let next = cord.ring_add(t);
        proof {
            lemma_column_step(cord, entry.1, x, t, next, column_sum(col@, v@, i as nat));
        }
        cord = next;
        i += 1;
    }
    let s = cord.ring_add(a[j]);
    proof {
        let m = R::modulus();
        let sum = column_sum(col@, v@, col@.len());
        a@[j as int].lemma_ring_facts();
        lemma_add_mod_noop(cord.raw(), a@[j as int].raw(), m);
        lemma_add_mod_noop(sum, a@[j as int].raw(), m);
        lemma_mod_twice(a@[j as int].raw(), m);
        lemma_add_mod_noop(sum, residue(a@[j as int]), m);
    }
    s.reduce()
}

/// The products of the columns of `indices`, `d` entries each, with `v`,
/// computed in parallel with rayon's `par_chunks_exact`, `map` and `collect`.
/// Claimed: `column_dot` runs on each full chunk of `d` entries, and the
/// results come back in the order of the chunks, one per chunk.
#[verifier::external_body]
fn par_column_dots<R: Ring + Send + Sync>(indices: &[(usize, R)], d: usize, v: &[R]) -> (r: Vec<R>)
    requires
        d > 0,
        rows_below(indices@, v@.len() as int),
    ensures
        r@.len() == indices@.len() as int / (d as int),
        forall|j: int|
            0 <= j < r@.len() ==> #[trigger] r@[j].raw() == code_product(indices@, d as nat, j, v@),
{
    indices.par_chunks_exact(d).map(|col| column_dot(col, v)).collect()
}

/// The products of the columns of `indices`, `d` entries each, with `v`,
/// plus `a[j]` for column `j`, computed in parallel with rayon's
/// `par_chunks_exact`, `enumerate`, `map` and `collect`.  Claimed:
/// `column_dot_add` runs on each full chunk with its position `j`, and the
/// results come back in the order of the chunks, one per chunk.
#[verifier::external_body]
fn par_column_dots_add<R: Ring + Send + Sync>(indices: &[(usize, R)], d: usize, v: &[R], a: &[R]) -> (r: Vec<R>)
    requires
        d > 0,
        rows_below(indices@, v@.len() as int),
        indices@.len() as int / (d as int) <= a@.len(),
    ensures
        r@.len() == indices@.len() as int / (d as int),
        forall|j: int|
            0 <= j < r@.len() ==> #[trigger] r@[j].raw() == (column_sum(
                column(indices@, d as nat, j),
                v@,
                d as nat,
            ) + residue(a@[j])) % R::modulus(),
{
    indices.par_chunks_exact(d).enumerate().map(|(j, col)| column_dot_add(col, v, a, j)).collect()
}

/// A local linear code: `columns` columns over `rows` rows, each with
/// `nonzero_entries_per_column` entries.
pub struct LLCode<R> {
    pub rows: usize,
    pub columns: usize,
    pub nonzero_entries_per_column: usize,
    indices: Vec<(usize, R)>,
}

/// The dimensions and the entries of a code.
pub struct CodeModel<R> {
    pub rows: nat,
    pub columns: nat,
    pub d: nat,
    pub entries: Seq<(usize, R)>,
}

impl<R> View for LLCode<R> {
    type V = CodeModel<R>;

    /// The number of rows and of columns, the number `d` of entries per
    /// column, and the (row, coefficient) entries, column after column.
    closed spec fn view(&self) -> CodeModel<R> {
        CodeModel {
            rows: self.rows as nat,
            columns: self.columns as nat,
            d: self.nonzero_entries_per_column as nat,
            entries: self.indices@,
        }
    }
}

/// A code's invariant: `columns` columns of `d > 0` entries each, all in rows
/// below `rows`.
pub open spec fn code_wf<R>(c: CodeModel<R>) -> bool {
    &&& c.d > 0
    &&& c.entries.len() == c.columns * c.d
    &&& rows_below(c.entries, c.rows as int)
}

/// The rows of the first `n` entries of a column are pairwise distinct.
pub open spec fn distinct_rows<R>(col: Seq<(usize, R)>, n: int) -> bool {
    forall|a: int, b: int|
        0 <= a < n && 0 <= b < n && a != b ==> #[trigger] col[a].0 != #[trigger] col[b].0
}

/// The rows of a column never decrease from entry to entry.
pub open spec fn sorted_rows<R>(col: Seq<(usize, R)>) -> bool {
    forall|a: int, b: int| 0 <= a < b < col.len() ==> #[trigger] col[a].0 <= #[trigger] col[b].0
}

/// One draw of the rejection sampling of a column's rows: row `new_index`
/// becomes the row of entry `count` unless one of the first `count` entries
/// already has it.  Returns the new number of chosen rows.
pub fn accept_row<R: Copy>(column: &mut [(usize, R)], count: usize, new_index: usize) -> (r: usize)
    requires
        count < old(column)@.len(),
    ensures
        (forall|k: int| 0 <= k < count ==> old(column)@[k].0 != new_index) ==> r == count + 1
            && final(column)@ == old(column)@.update(count as int, (new_index, old(column)@[count as int].1)),
        !(forall|k: int| 0 <= k < count ==> old(column)@[k].0 != new_index) ==> r == count
            && final(column)@ == old(column)@,
        distinct_rows(old(column)@, count as int) ==> distinct_rows(final(column)@, r as int),
{
    let mut k: usize = 0;
    while k < count
        invariant
            k <= count,
            count < column@.len(),
            column@ == old(column)@,
            forall|j: int| 0 <= j < k ==> column@[j].0 != new_index,
        decreases count - k,
    {
        if column[k].0 == new_index {
            return count;
        }
        k += 1;
    }
    let coefficient = column[count].1;
    column[count] = (new_index, coefficient);
    count + 1
}

/// `after` is `before` reordered by `p` (`after[i] == before[p[i]]`, with
/// `p` a permutation of the positions), and entries with equal rows keep
/// their relative order.
pub open spec fn stable_permutation<R>(before: Seq<(usize, R)>, after: Seq<(usize, R)>, p: Seq<int>) -> bool {
    &&& p.len() == before.len()
    &&& after.len() == before.len()
    &&& forall|i: int| 0 <= i < after.len() ==> 0 <= #[trigger] p[i] < before.len() && after[i] == before[p[i]]
    &&& forall|a: int, b: int| 0 <= a < b < after.len() ==> #[trigger] p[a] != #[trigger] p[b]
    &&& forall|a: int, b: int|
        0 <= a < b < after.len() && #[trigger] after[a].0 == #[trigger] after[b].0 ==> p[a] < p[b]
}

/// Sorts the entries of a column by row, moving each entry down past the
/// larger rows before it: a stable sort.  Pairwise distinct rows end up
/// strictly increasing.
pub fn sort_column<R: Copy>(column: &mut [(usize, R)])
    ensures
        final(column)@.len() == old(column)@.len(),
        final(column)@.to_multiset() == old(column)@.to_multiset(),
        sorted_rows(final(column)@),
        exists|p: Seq<int>| stable_permutation(old(column)@, final(column)@, p),
        distinct_rows(old(column)@, old(column)@.len() as int) ==> distinct_rows(
            final(column)@,
            final(column)@.len() as int,
        ),
{
    let n = column.len();
    let mut i: usize = 1;
    let ghost mut perm: Seq<int> = Seq::new(n as nat, |k: int| k);
    while i < n
        invariant
            n == column@.len(),
            n == old(column)@.len(),
            1 <= i || n == 0,
            column@.to_multiset() == old(column)@.to_multiset(),
            forall|a: int, b: int| 0 <= a < b < i && b < n ==> #[trigger] column@[a].0 <= #[trigger] column@[b].0,
            stable_permutation(old(column)@, column@, perm),
            distinct_rows(old(column)@, n as int) ==> distinct_rows(column@, n as int),
        decreases n - i,
    {
        let mut j: usize = i;
        while j > 0 && column[j - 1].0 > column[j].0
            invariant
                n == column@.len(),
                n == old(column)@.len(),
                0 <= j <= i < n,
                column@.to_multiset() == old(column)@.to_multiset(),
                forall|a: int, b: int|
                    0 <= a < b <= i && a != j && b != j ==> #[trigger] column@[a].0 <= #[trigger] column@[b].0,
                forall|b: int| j < b <= i ==> column@[j as int].0 < #[trigger] column@[b].0,
                stable_permutation(old(column)@, column@, perm),
                distinct_rows(old(column)@, n as int) ==> distinct_rows(column@, n as int),
            decreases j,
        {
            let ghost before = column@;
            let ghost pbefore = perm;
            let lower = column[j - 1];
            let upper = column[j];
            column[j - 1] = upper;
            column[j] = lower;
            proof {
                perm = pbefore.update(j - 1, pbefore[j as int]).update(j as int, pbefore[j - 1]);
                assert forall|i2: int| 0 <= i2 < n implies 0 <= #[trigger] perm[i2] < n && column@[i2]
                    == old(column)@[perm[i2]] by {
                    let q = if i2 == j - 1 { j as int } else if i2 == j { j - 1 } else { i2 };
                    assert(column@[i2] == before[q]);
                    assert(perm[i2] == pbefore[q]);
                }
                assert forall|a: int, b: int| 0 <= a < b < n implies #[trigger] perm[a] != #[trigger] perm[b] by {
                    let pa = if a == j - 1 { j as int } else if a == j { j - 1 } else { a };
                    let pb = if b == j - 1 { j as int } else if b == j { j - 1 } else { b };
                    assert(perm[a] == pbefore[pa]);
                    assert(perm[b] == pbefore[pb]);
                    if pa < pb {
                        assert(pbefore[pa] != pbefore[pb]);
                    } else {
                        assert(pbefore[pb] != pbefore[pa]);
                    }
                }
                assert forall|a: int, b: int| 0 <= a < b < n && #[trigger] column@[a].0 == #[trigger] column@[b].0
                    implies perm[a] < perm[b] by {
                    let pa = if a == j - 1 { j as int } else if a == j { j - 1 } else { a };
                    let pb = if b == j - 1 { j as int } else if b == j { j - 1 } else { b };
                    assert(column@[a] == before[pa]);
                    assert(column@[b] == before[pb]);
                    assert(perm[a] == pbefore[pa]);
                    assert(perm[b] == pbefore[pb]);
                    assert(pa < pb);
                    assert(before[pa].0 == before[pb].0);
                }
                assert(column@ == before.update(j - 1, before[j as int]).update(j as int, before[j - 1]));
                assert(before.update(j - 1, before[j as int])[j as int] == before[j as int]);
                assert(column@.to_multiset() == before.to_multiset()) by {
                    broadcast use vstd::multiset::group_multiset_axioms, vstd::seq_lib::to_multiset_contains;

                    let m = before.to_multiset();
                    let s1 = before.update(j - 1, before[j as int]);
                    let s2 = s1.update(j as int, before[j - 1]);
                    assert(0 < j < before.len());
                    vstd::seq_lib::to_multiset_update(before, j - 1, before[j as int]);
                    vstd::seq_lib::to_multiset_update(s1, j as int, before[j - 1]);
                    assert(s1.to_multiset() == m.insert(before[j as int]).remove(before[j - 1]));
                    assert(s1[j as int] == before[j as int]);
                    assert(s2.to_multiset() == s1.to_multiset().insert(before[j - 1]).remove(before[j as int]));
                    assert(column@ == s2);
                    assert(before.contains(before[j - 1]));
                    assert(m.count(before[j - 1]) > 0);
                    assert(m.insert(before[j as int]).remove(before[j - 1]).insert(before[j - 1]).remove(
                        before[j as int],
                    ) =~= m);
                }
                assert forall|a: int, b: int| 0 <= a < n && 0 <= b < n && a != b
                    && distinct_rows(before, n as int) implies #[trigger] column@[a].0 != #[trigger] column@[b].0 by {
                    let pa = if a == j - 1 { j as int } else if a == j { j - 1 } else { a };
                    let pb = if b == j - 1 { j as int } else if b == j { j - 1 } else { b };
                    assert(column@[a] == before[pa]);
                    assert(column@[b] == before[pb]);
                }
            }
            j -= 1;
        }
        i += 1;
    }
    assert(stable_permutation(old(column)@, column@, perm));
}

impl<R: Ring + Send + Sync> LLCode<R> {
    /// The code with the given entries, if they fit the dimensions.
    pub fn from_entries(
        rows: usize,
        columns: usize,
        nonzero_entries_per_column: usize,
        indices: Vec<(usize, R)>,
    ) -> (r: Option<Self>)
        ensures
            r matches Some(c) ==> {
                &&& code_wf(c@)
                &&& c@.rows == rows
                &&& c@.columns == columns
                &&& c@.d == nonzero_entries_per_column
                &&& c@.entries == indices@
            },
            r is None <==> !(nonzero_entries_per_column > 0 && indices@.len() == columns
                * nonzero_entries_per_column && rows_below(indices@, rows as int)),
    {
        if nonzero_entries_per_column == 0 {
            return None;
        }
        if indices.len() / nonzero_entries_per_column != columns
            || indices.len() % nonzero_entries_per_column != 0 {
            proof {
                if indices@.len() == columns * nonzero_entries_per_column {
                    vstd::arithmetic::div_mod::lemma_div_multiples_vanish(
                        columns as int,
                        nonzero_entries_per_column as int,
                    );
                    vstd::arithmetic::div_mod::lemma_mod_multiples_basic(
                        columns as int,
                        nonzero_entries_per_column as int,
                    );
                    vstd::arithmetic::mul::lemma_mul_is_commutative(
                        columns as int,
                        nonzero_entries_per_column as int,
                    );
                }
            }
            return None;
        }
        proof {
            vstd::arithmetic::div_mod::lemma_fundamental_div_mod(
                indices@.len() as int,
                nonzero_entries_per_column as int,
            );
            vstd::arithmetic::mul::lemma_mul_is_commutative(
                columns as int,
                nonzero_entries_per_column as int,
            );
        }
        let mut i: usize = 0;
        while i < indices.len()
            invariant
                i <= indices.len(),
                forall|k: int| 0 <= k < i ==> #[trigger] indices@[k].0 < rows,
            decreases indices.len() - i,
        {
            if indices[i].0 >= rows {
                return None;
            }
            i += 1;
        }
        Some(LLCode { rows, columns, nonzero_entries_per_column, indices })
    }

    /// The product of the code with `v`: entry `j` is column `j` summed
    /// against `v`, reduced.
    pub fn mul(&self, v: &[R]) -> (r: Vec<R>)
        requires
            code_wf(self@),
            v@.len() == self@.rows,
        ensures
            r@.len() == self@.columns,
            forall|j: int|
                0 <= j < self@.columns ==> #[trigger] r@[j].raw() == code_product(
                    self@.entries,
                    self@.d,
                    j,
                    v@,
                ),
    {
        proof {
            vstd::arithmetic::div_mod::lemma_div_multiples_vanish(
                self.columns as int,
                self.nonzero_entries_per_column as int,
            );
            vstd::arithmetic::mul::lemma_mul_is_commutative(
                self.columns as int,
                self.nonzero_entries_per_column as int,
            );
        }
        par_column_dots(self.indices.as_slice(), self.nonzero_entries_per_column, v)
    }

    /// The product of the code with `v`, plus `a`.
    pub fn mul_add(&self, v: &[R], a: &[R]) -> (r: Vec<R>)
        requires
            code_wf(self@),
            v@.len() == self@.rows,
            a@.len() == self@.columns,
        ensures
            r@.len() == self@.columns,
            forall|j: int|
                0 <= j < self@.columns ==> #[trigger] r@[j].raw() == (column_sum(
                    column(self@.entries, self@.d, j),
                    v@,
                    self@.d,
                ) + residue(a@[j])) % R::modulus(),
    {
        proof {
            vstd::arithmetic::div_mod::lemma_div_multiples_vanish(
                self.columns as int,
                self.nonzero_entries_per_column as int,
            );
            vstd::arithmetic::mul::lemma_mul_is_commutative(
                self.columns as int,
                self.nonzero_entries_per_column as int,
            );
        }
        par_column_dots_add(self.indices.as_slice(), self.nonzero_entries_per_column, v, a)
    }
}

/// A column summed against correlated vectors gives correlated sums:
/// `sum c_k w_k = (sum c_k u_k) delta + sum c_k v_k` in the ring.
pub proof fn lemma_column_sum_correlated<R: Ring>(
    col: Seq<(usize, R)>,
    u: Seq<R>,
    w: Seq<R>,
    v: Seq<R>,
    delta: R,
    n: nat,
)
    requires
        correlated(u, w, v, delta),
        rows_below(col, u.len() as int),
        n <= col.len(),
    ensures
        column_sum(col, w, n) % R::modulus() == (column_sum(col, u, n) * residue(delta)
            + column_sum(col, v, n)) % R::modulus(),
    decreases n,
{
    let m = R::modulus();
    delta.lemma_ring_facts();
    if n > 0 {
        lemma_column_sum_correlated(col, u, w, v, delta, (n - 1) as nat);
        let k = (n - 1) as int;
        let c = residue(col[k].1);
        let i = col[k].0 as int;
        assert(residue(w[i]) == (residue(u[i]) * residue(delta) + residue(v[i])) % m);
        let su = column_sum(col, u, (n - 1) as nat);
        let sv = column_sum(col, v, (n - 1) as nat);
        let sw = column_sum(col, w, (n - 1) as nat);
        let d = residue(delta);
        let eu = residue(u[i]);
        let ev = residue(v[i]);
        // sw + c * w_i  ==  (su * d + sv) + c * (eu * d + ev)  (mod m)
        lemma_add_mod_noop(sw, c * residue(w[i]), m);
        lemma_mul_mod_noop(c, eu * d + ev, m);
        lemma_mod_twice(eu * d + ev, m);
        lemma_mul_mod_noop(c, residue(w[i]), m);
        lemma_add_mod_noop(su * d + sv, c * (eu * d + ev), m);
        assert((su * d + sv) + c * (eu * d + ev) == (su + c * eu) * d + (sv + c * ev)) by (nonlinear_arith);
    }
}

/// Multiplying correlated vectors by the code yields correlated vectors, and
/// so does adding correlated vectors to the products: if `w = u delta + v` and
/// `c = e delta + b` entry by entry, then `A w + c = (A u + e) delta + (A v + b)`.
pub proof fn lemma_code_product_correlated<R: Ring>(
    indices: Seq<(usize, R)>,
    d: nat,
    j: int,
    u: Seq<R>,
    w: Seq<R>,
    v: Seq<R>,
    e: R,
    c: R,
    b: R,
    delta: R,
)
    requires
        correlated(u, w, v, delta),
        rows_below(indices, u.len() as int),
        0 <= j,
        j * d + d <= indices.len(),
        residue(c) == (residue(e) * residue(delta) + residue(b)) % R::modulus(),
    ensures
        code_product(indices, d, j, w) == (code_product(indices, d, j, u) * residue(delta)
            + code_product(indices, d, j, v)) % R::modulus(),
        (column_sum(column(indices, d, j), w, d) + residue(c)) % R::modulus() == ((column_sum(
            column(indices, d, j),
            u,
            d,
        ) + residue(e)) % R::modulus() * residue(delta) + (column_sum(column(indices, d, j), v, d)
            + residue(b)) % R::modulus()) % R::modulus(),
{
    let m = R::modulus();
    let col = column(indices, d, j);
    assert forall|k: int| 0 <= k < col.len() implies #[trigger] col[k].0 < u.len() by {
        assert(col[k] == indices[j * d + k]);
    }
    lemma_column_sum_correlated(col, u, w, v, delta, d);
    delta.lemma_ring_facts();
    let su = column_sum(col, u, d);
    let sv = column_sum(col, v, d);
    let sw = column_sum(col, w, d);
    let dd = residue(delta);
    lemma_affine_mod(su, dd, sv, m);
    // with the added entries
    let ee = residue(e);
    let bb = residue(b);
    let rc = residue(c);
    lemma_add_mod_noop(sw, rc, m);
    lemma_mod_twice(ee * dd + bb, m);
    lemma_add_mod_noop(su * dd + sv, ee * dd + bb, m);
    assert((su * dd + sv) + (ee * dd + bb) == (su + ee) * dd + (sv + bb)) by (nonlinear_arith);
    lemma_affine_mod(su + ee, dd, sv + bb, m);
}

/// `a d + b` modulo `m` depends on `a` and `b` modulo `m` only.
proof fn lemma_affine_mod(a: int, d: int, b: int, m: int)
    requires
        m > 0,
    ensures
        (a * d + b) % m == ((a % m) * d + b % m) % m,
{
    lemma_add_mod_noop(a * d, b, m);
    lemma_add_mod_noop((a % m) * d, b % m, m);
    lemma_mod_twice(b, m);
    vstd::arithmetic::div_mod::lemma_mul_mod_noop_left(a, d, m);
}

} // verus!
