//! Small helpers of the extension protocol.
use vstd::prelude::*;
use vstd::arithmetic::power2::pow2;

verus! {

/// The length-doubling PRG, given the correlation-robust hash `o1` of the
/// seed `k1`: its outputs are `o1` and `o1 + k1` (wrapping).
pub fn prg2(o1: u128, k1: u128) -> (r: (u128, u128))
    ensures
        r.0 == o1,
        r.1 == (o1 + k1) % 0x1_0000_0000_0000_0000_0000_0000_0000_0000int,
{
    let o2: u128 = o1.wrapping_add(k1);
    (o1, o2)
}

/// Bit `i` of `n`.
pub open spec fn bit_of(n: int, i: nat) -> bool {
    (n / pow2(i) as int) % 2 == 1
}

/// The `N` low bits of `n`, most significant first.
pub fn unpack_bits<const N: usize>(n: usize) -> (r: [bool; N])
    requires
        0 < N < usize::BITS,
        n < pow2(N as nat),
    ensures
        forall|j: int| 0 <= j < N ==> r[j] == bit_of(n as int, (N - 1 - j) as nat),
{
    broadcast use vstd::array::group_array_axioms;

    let ghost n0 = n;
    let mut rest = n;
    let mut b: [bool; N] = [false; N];
    let mut j: usize = N - 1;
    proof {
        vstd::arithmetic::power2::lemma2_to64();
        assert((N - 1 - j) as nat == 0);
        assert(n0 as int / 1 == n0 as int);
    }
    loop
        invariant
            n0 == n,
            0 < N < usize::BITS,
            j < N,
            rest as int == n0 as int / pow2((N - 1 - j) as nat) as int,
            forall|i: int| j < i < N ==> b[i] == bit_of(n0 as int, (N - 1 - i) as nat),
        decreases j,
    {
        proof {
            vstd::arithmetic::power2::lemma_pow2_pos((N - 1 - j) as nat);
            let k = (N - 1 - j) as nat;
            assert((rest & 1usize) == rest % 2) by (bit_vector);
            assert((rest >> 1usize) == rest / 2) by (bit_vector);
            vstd::arithmetic::power2::lemma_pow2_adds(k, 1);
            vstd::arithmetic::power2::lemma2_to64();
            vstd::arithmetic::div_mod::lemma_div_denominator(n0 as int, pow2(k) as int, 2);
        }
        b[j] = (rest & 1) != 0;
        assert(b[j as int] == bit_of(n0 as int, (N - 1 - j) as nat));
        rest = rest >> 1;
        if j == 0 {
            assert forall|i: int| 0 <= i < N implies b[i] == bit_of(n0 as int, (N - 1 - i) as nat) by {
                if i > 0 {
                    assert(j < i < N);
                }
            }
            return b;
        }
        j -= 1;
    }
}

} // verus!
