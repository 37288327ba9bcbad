//! Garbled-circuit wire labels: a 128-bit string for wires of modulus 2, and
//! a vector of base-`q` digits for wires of modulus `q > 2`.  Labels add,
//! subtract and scale digit by digit modulo the wire's modulus.
use vstd::prelude::*;

verus! {

/// A wire label.
#[derive(Debug, PartialEq, PartialOrd, Clone)]
pub enum Wire {
    Mod2 { val: u128 },
    ModN { q: u16, ds: Vec<u16> },
}

/// What a wire label holds: the bit string, or the modulus and the digits.
pub enum WireModel {
    Mod2 { val: u128 },
    ModN { q: u16, ds: Seq<u16> },
}

impl View for Wire {
    type V = WireModel;

    open spec fn view(&self) -> WireModel {
        match self {
            Wire::Mod2 { val } => WireModel::Mod2 { val: *val },
            Wire::ModN { q, ds } => WireModel::ModN { q: *q, ds: ds@ },
        }
    }
}

/// Bit `i` of `val`, as a digit.
pub open spec fn bit_digit(val: u128, i: int) -> u16 {
    ((val >> (i as u128)) & 1) as u16
}

/// The digits of a label: the 128 bits of a binary label, least significant
/// first, or the digits of a label of larger modulus.
pub open spec fn model_digits(w: WireModel) -> Seq<u16> {
    match w {
        WireModel::Mod2 { val } => Seq::new(128, |i: int| bit_digit(val, i)),
        WireModel::ModN { ds, .. } => ds,
    }
}

/// The modulus of a label.
pub open spec fn model_modulus(w: WireModel) -> u16 {
    match w {
        WireModel::Mod2 { .. } => 2,
        WireModel::ModN { q, .. } => q,
    }
}

/// A label is reduced when its digits are below its modulus.
pub open spec fn model_reduced(w: WireModel) -> bool {
    match w {
        WireModel::Mod2 { .. } => true,
        WireModel::ModN { q, ds } => forall|i: int| 0 <= i < ds.len() ==> #[trigger] ds[i] < q,
    }
}

/// The zero label of modulus `q` with `n` digits (for `q > 2`).
pub open spec fn model_zero(q: u16, n: nat) -> WireModel {
    if q == 2 {
        WireModel::Mod2 { val: 0 }
    } else {
        WireModel::ModN { q, ds: Seq::new(n, |i: int| 0u16) }
    }
}

/// The digit sum `x + y` reduced by one subtraction of `q`.
pub open spec fn add_digit(x: u16, y: u16, q: u16) -> u16 {
    if x + y >= q {
        (x + y - q) as u16
    } else {
        (x + y) as u16
    }
}

/// The negation `q - x` of a digit, with 0 staying 0.
pub open spec fn neg_digit(x: u16, q: u16) -> u16 {
    if x > 0 {
        (q - x) as u16
    } else {
        0
    }
}

/// Whether two labels can be added: the same kind, and for digit labels the
/// same modulus, the same length, and digit sums that fit 16 bits.
pub open spec fn can_add(a: WireModel, b: WireModel) -> bool {
    match (a, b) {
        (WireModel::Mod2 { .. }, WireModel::Mod2 { .. }) => true,
        (WireModel::ModN { q: qa, ds: xs }, WireModel::ModN { q: qb, ds: ys }) => {
            &&& qa == qb
            &&& xs.len() == ys.len()
            &&& forall|i: int| 0 <= i < xs.len() ==> #[trigger] xs[i] + ys[i] <= u16::MAX
        },
        _ => false,
    }
}

/// The sum of two labels that `can_add` accepts.
pub open spec fn model_plus(a: WireModel, b: WireModel) -> WireModel {
    match (a, b) {
        (WireModel::Mod2 { val: x }, WireModel::Mod2 { val: y }) => WireModel::Mod2 { val: x ^ y },
        (WireModel::ModN { q, ds: xs }, WireModel::ModN { ds: ys, .. }) => WireModel::ModN {
            q,
            ds: Seq::new(xs.len(), |i: int| add_digit(xs[i], ys[i], q)),
        },
        _ => a,
    }
}

/// The label scaled by `c`.
pub open spec fn model_cmul(a: WireModel, c: u16) -> WireModel {
    match a {
        WireModel::Mod2 { val } => if c % 2 == 0 {
            WireModel::Mod2 { val: 0 }
        } else {
            WireModel::Mod2 { val }
        },
        WireModel::ModN { q, ds } => WireModel::ModN {
            q,
            ds: Seq::new(ds.len(), |i: int| ((ds[i] * c) % (q as int)) as u16),
        },
    }
}

/// The negated label.
pub open spec fn model_negate(a: WireModel) -> WireModel {
    match a {
        WireModel::Mod2 { val } => WireModel::Mod2 { val: !val },
        WireModel::ModN { q, ds } => WireModel::ModN {
            q,
            ds: Seq::new(ds.len(), |i: int| neg_digit(ds[i], q)),
        },
    }
}

/// Whether a label can be negated: its digits are at most its modulus.
pub open spec fn can_negate(a: WireModel) -> bool {
    match a {
        WireModel::Mod2 { .. } => true,
        WireModel::ModN { q, ds } => forall|i: int| 0 <= i < ds.len() ==> #[trigger] ds[i] <= q,
    }
}

/// The difference of two labels.
pub open spec fn model_minus(a: WireModel, b: WireModel) -> WireModel {
    match a {
        WireModel::Mod2 { .. } => model_plus(a, b),
        WireModel::ModN { .. } => model_plus(a, model_negate(b)),
    }
}

/// Whether the difference of two labels can be formed.
pub open spec fn can_subtract(a: WireModel, b: WireModel) -> bool {
    match a {
        WireModel::Mod2 { .. } => can_add(a, b),
        WireModel::ModN { .. } => can_negate(b) && can_add(a, model_negate(b)),
    }
}

impl Wire {
    /// The digits of the label.
    pub fn digits(&self) -> (r: Vec<u16>)
        ensures
            r@ == model_digits(self@),
    {
        match self {
            Wire::Mod2 { val } => {
                let mut r: Vec<u16> = Vec::new();
                let mut i: u32 = 0;
                while i < 128
                    invariant
                        i <= 128,
                        r@ == model_digits(self@).take(i as int),
                        self@ == (WireModel::Mod2 { val: *val }),
                    decreases 128 - i,
                {
                    let v = *val;
                    let d = ((v >> i) as u16) & 1;
                    assert(d == bit_digit(v, i as int)) by {
                        let iu = i as u128;
                        assert(((v >> i) as u16) & 1 == ((v >> iu) & 1) as u16) by (bit_vector)
                            requires
                                iu == i,
                                i < 128,
                        ;
                    }
                    r.push(d);
                    i += 1;
                    assert(r@ == model_digits(self@).take(i as int));
                }
                r
            },
            Wire::ModN { ds, .. } => {
                let mut r: Vec<u16> = Vec::new();
                let mut i: usize = 0;
                while i < ds.len()
                    invariant
                        i <= ds.len(),
                        r@ == ds@.take(i as int),
                    decreases ds.len() - i,
                {
                    r.push(ds[i]);
                    i += 1;
                    assert(r@ == ds@.take(i as int));
                }
                assert(r@ == ds@.take(ds.len() as int));
                r
            },
        }
    }

    /// The modulus of the label.
    pub fn modulus(&self) -> (r: u16)
        ensures
            r == model_modulus(self@),
    {
        match *self {
            Wire::Mod2 { .. } => 2,
            Wire::ModN { q, .. } => q,
        }
    }

    /// The zero label of the given modulus, with `ndigits` digits when the
    /// modulus is above 2.
    pub fn zero(modulus: u16, ndigits: usize) -> (r: Self)
        requires
            modulus != 1,
        ensures
            r@ == model_zero(modulus, ndigits as nat),
    {
        if modulus == 2 {
            Wire::Mod2 { val: 0 }
        } else {
            let ds: Vec<u16> = vec![0; ndigits];
            assert(ds@ == Seq::new(ndigits as nat, |i: int| 0u16));
            Wire::ModN { q: modulus, ds }
        }
    }

    /// The color (point-and-permute bit) of the label: its lowest bit, or its
    /// first digit.
    pub fn color(&self) -> (r: u16)
        requires
            self@ matches WireModel::ModN { ds, .. } ==> ds.len() > 0,
        ensures
            r == model_digits(self@)[0],
    {
        match self {
            Wire::Mod2 { val } => {
                let v = *val;
                assert(((v & 1) as u16) == bit_digit(v, 0)) by {
                    assert(((v & 1) as u16) == ((v >> 0u128) & 1) as u16) by (bit_vector);
                }
                (v & 1) as u16
            },
            Wire::ModN { ds, .. } => ds[0],
        }
    }

    /// The sum of two labels: bitwise exclusive or, or digit-wise addition
    /// modulo the modulus.
    pub fn plus(&self, other: &Self) -> (r: Self)
        requires
            can_add(self@, other@),
        ensures
            r@ == model_plus(self@, other@),
    {
        match (self, other) {
            (Wire::Mod2 { val: x }, Wire::Mod2 { val: y }) => Wire::Mod2 { val: *x ^ *y },
            (Wire::ModN { q: xmod, ds: xs }, Wire::ModN { q: ymod, ds: ys }) => {
                let n = xs.len();
                let mut zs: Vec<u16> = vec![0; n];
                let mut i: usize = 0;
                while i < n
                    invariant
                        n == xs.len(),
                        n == ys.len(),
                        i <= n,
                        zs.len() == n,
                        forall|j: int| 0 <= j < n ==> #[trigger] xs[j] + ys[j] <= u16::MAX,
                        forall|j: int|
                            0 <= j < i ==> #[trigger] zs[j] == add_digit(xs[j], ys[j], *xmod),
                    decreases n - i,
                {
                    let mut z = xs[i] + ys[i];
                    if z >= *xmod {
                        z -= *xmod;
                    }
                    zs.set(i, z);
                    i += 1;
                }
                let r = Wire::ModN { q: *xmod, ds: zs };
                assert(r@ == model_plus(self@, other@)) by {
                    assert(zs@ == Seq::new(n as nat, |j: int| add_digit(xs[j], ys[j], *xmod)));
                }
                r
            },
            _ => {
                assert(false);
                Wire::Mod2 { val: 0 }
            },
        }
    }

    /// The label scaled by `c`.
    pub fn cmul(&self, c: u16) -> (r: Self)
        requires
            self@ matches WireModel::ModN { q, ds } ==> (ds.len() > 0 ==> q > 0),
        ensures
            r@ == model_cmul(self@, c),
    {
        match self {
            Wire::Mod2 { val } => {
                if c % 2 == 0 {
                    Wire::Mod2 { val: 0 }
                } else {
                    Wire::Mod2 { val: *val }
                }
            },
            Wire::ModN { q, ds } => {
                let n = ds.len();
                let mut zs: Vec<u16> = vec![0; n];
                let mut i: usize = 0;
                while i < n
                    invariant
                        n == ds.len(),
                        n > 0 ==> *q > 0,
                        i <= n,
                        zs.len() == n,
                        forall|j: int|
                            0 <= j < i ==> #[trigger] zs[j] == ((ds[j] * c) % (*q as int)) as u16,
                    decreases n - i,
                {
                    let d = ds[i];
                    let qq = *q;
                    assert(d * c <= u32::MAX) by (nonlinear_arith)
                        requires
                            d <= u16::MAX,
                            c <= u16::MAX,
                    ;
                    let z = ((d as u32 * c as u32) % qq as u32) as u16;
                    zs.set(i, z);
                    i += 1;
                }
                let r = Wire::ModN { q: *q, ds: zs };
                assert(r@ == model_cmul(self@, c)) by {
                    assert(zs@ == Seq::new(n as nat, |j: int| ((ds[j] * c) % (*q as int)) as u16));
                }
                r
            },
        }
    }

    /// The negated label: bitwise complement, or each digit `d` replaced by
    /// `q - d` (0 stays 0).
    pub fn negate(&self) -> (r: Self)
        requires
            can_negate(self@),
        ensures
            r@ == model_negate(self@),
    {
        match self {
            Wire::Mod2 { val } => Wire::Mod2 { val: !*val },
            Wire::ModN { q, ds } => {
                let n = ds.len();
                let mut zs: Vec<u16> = vec![0; n];
                let mut i: usize = 0;
                while i < n
                    invariant
                        n == ds.len(),
                        i <= n,
                        zs.len() == n,
                        forall|j: int| 0 <= j < n ==> #[trigger] ds[j] <= *q,
                        forall|j: int| 0 <= j < i ==> #[trigger] zs[j] == neg_digit(ds[j], *q),
                        forall|j: int| i <= j < n ==> #[trigger] zs[j] == 0,
                    decreases n - i,
                {
                    if ds[i] > 0 {
                        zs.set(i, *q - ds[i]);
                    }
                    i += 1;
                }
                let r = Wire::ModN { q: *q, ds: zs };
                assert(r@ == model_negate(self@)) by {
                    assert(zs@ == Seq::new(n as nat, |j: int| neg_digit(ds[j], *q)));
                }
                r
            },
        }
    }

    /// The difference of two labels: for binary labels their sum, otherwise
    /// the sum with the negation of `other`.
    pub fn minus(&self, other: &Self) -> (r: Self)
        requires
            can_subtract(self@, other@),
        ensures
            r@ == model_minus(self@, other@),
    {
        match self {
            Wire::Mod2 { .. } => self.plus(other),
            Wire::ModN { .. } => self.plus(&other.negate()),
        }
    }
}

/// Negating a reduced label twice gives it back.
pub proof fn lemma_negate_negate(a: WireModel)
    requires
        model_reduced(a),
    ensures
        can_negate(a),
        can_negate(model_negate(a)),
        model_negate(model_negate(a)) == a,
{
    match a {
        WireModel::Mod2 { val } => {
            assert(!!val == val) by (bit_vector);
        },
        WireModel::ModN { q, ds } => {
            let n = model_negate(a);
            assert(n->ds.len() == ds.len());
            assert forall|i: int| 0 <= i < ds.len() implies #[trigger] n->ds[i] <= q by {}
            assert(model_negate(n)->ds =~= ds);
        },
    }
}

/// Adding the zero label leaves a reduced label unchanged.
pub proof fn lemma_plus_zero(a: WireModel)
    requires
        model_reduced(a),
        model_modulus(a) != 1,
        a matches WireModel::ModN { q, .. } ==> q != 2,
    ensures
        can_add(a, model_zero(model_modulus(a), model_digits(a).len())),
        model_plus(a, model_zero(model_modulus(a), model_digits(a).len())) == a,
{
    match a {
        WireModel::Mod2 { val } => {
            assert(val ^ 0 == val) by (bit_vector);
        },
        WireModel::ModN { q, ds } => {
            let z = model_zero(q, ds.len());
            assert(model_plus(a, z)->ds =~= ds);
        },
    }
}

/// A reduced label minus itself is the zero label.
pub proof fn lemma_minus_self(a: WireModel)
    requires
        model_reduced(a),
        a matches WireModel::ModN { q, .. } ==> q != 2,
    ensures
        can_subtract(a, a),
        model_minus(a, a) == model_zero(model_modulus(a), model_digits(a).len()),
{
    match a {
        WireModel::Mod2 { val } => {
            assert(val ^ val == 0) by (bit_vector);
        },
        WireModel::ModN { q, ds } => {
            let n = model_negate(a);
            assert forall|i: int| 0 <= i < ds.len() implies #[trigger] ds[i] + n->ds[i]
                <= u16::MAX by {}
            assert(model_minus(a, a)->ds =~= Seq::new(ds.len(), |i: int| 0u16));
        },
    }
}

/// A reduced label plus its negation is the zero label.
pub proof fn lemma_plus_negate(a: WireModel)
    requires
        model_reduced(a),
        a is ModN,
        a->q != 2,
    ensures
        can_negate(a),
        can_add(a, model_negate(a)),
        model_plus(a, model_negate(a)) == model_zero(model_modulus(a), model_digits(a).len()),
{
    lemma_minus_self(a);
}

/// Scaling by 0, or by the modulus, gives the zero label.
pub proof fn lemma_cmul_zero(a: WireModel)
    requires
        a matches WireModel::ModN { q, .. } ==> q > 2,
    ensures
        model_cmul(a, 0) == model_zero(model_modulus(a), model_digits(a).len()),
        model_cmul(a, model_modulus(a)) == model_zero(model_modulus(a), model_digits(a).len()),
{
    match a {
        WireModel::Mod2 { val } => {},
        WireModel::ModN { q, ds } => {
            assert forall|i: int| 0 <= i < ds.len() implies (#[trigger] ds[i] * q) % (q as int)
                == 0 by {
                vstd::arithmetic::div_mod::lemma_mod_multiples_basic(ds[i] as int, q as int);
            }
            assert forall|i: int| 0 <= i < ds.len() implies (#[trigger] ds[i] * 0) % (q as int) == 0 by {
                vstd::arithmetic::mul::lemma_mul_basics(ds[i] as int);
            }
            assert(model_cmul(a, 0)->ds =~= Seq::new(ds.len(), |i: int| 0u16));
            assert(model_cmul(a, q)->ds =~= Seq::new(ds.len(), |i: int| 0u16));
        },
    }
}

/// Adding a reduced label to itself is scaling it by 2, and adding it once
/// more is scaling it by 3.
pub proof fn lemma_plus_self(a: WireModel)
    requires
        model_reduced(a),
        model_modulus(a) > 0,
        a matches WireModel::ModN { q, .. } ==> 3 * q <= u16::MAX,
    ensures
        can_add(a, a),
        model_plus(a, a) == model_cmul(a, 2),
        can_add(model_plus(a, a), a),
        model_plus(model_plus(a, a), a) == model_cmul(a, 3),
{
    match a {
        WireModel::Mod2 { val } => {
            assert(val ^ val == 0) by (bit_vector);
            assert((0u128 ^ val) == val) by (bit_vector);
        },
        WireModel::ModN { q, ds } => {
            let two = model_plus(a, a);
            assert forall|i: int| 0 <= i < ds.len() implies #[trigger] two->ds[i] == (ds[i] * 2)
                % (q as int) by {
                let d = ds[i] as int;
                if d + d >= q {
                    vstd::arithmetic::div_mod::lemma_fundamental_div_mod_converse(d * 2, q as int, 1, d + d - q);
                } else {
                    vstd::arithmetic::div_mod::lemma_small_mod((d * 2) as nat, q as nat);
                }
            }
            assert(two->ds =~= model_cmul(a, 2)->ds);
            assert forall|i: int| 0 <= i < ds.len() implies #[trigger] two->ds[i] + ds[i] <= u16::MAX by {}
            let three = model_plus(two, a);
            assert forall|i: int| 0 <= i < ds.len() implies #[trigger] three->ds[i] == (ds[i] * 3)
                % (q as int) by {
                let d = ds[i] as int;
                let t = two->ds[i] as int;
                if d + d >= q {
                    if t + d >= q {
                        vstd::arithmetic::div_mod::lemma_fundamental_div_mod_converse(d * 3, q as int, 2, d + d + d - 2 * q);
                    } else {
                        vstd::arithmetic::div_mod::lemma_fundamental_div_mod_converse(d * 3, q as int, 1, d + d + d - q);
                    }
                } else {
                    if t + d >= q {
                        vstd::arithmetic::div_mod::lemma_fundamental_div_mod_converse(d * 3, q as int, 1, d + d + d - q);
                    } else {
                        vstd::arithmetic::div_mod::lemma_small_mod((d * 3) as nat, q as nat);
                    }
                }
            }
            assert(three->ds =~= model_cmul(a, 3)->ds);
        },
    }
}

} // verus!
