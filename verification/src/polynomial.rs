//! The multilinear polynomial that folding by a list of challenges amounts to.

use crate::algebra::{dot, lemma_congruent_mod, lemma_congruent_ops, order, product};
use crate::mipp::MippProof;
use crate::scalar::{scalar_values, Scalar};
use vstd::arithmetic::div_mod::lemma_div_denominator;
use vstd::arithmetic::power2::{
    lemma_pow2_pos, lemma_pow2_strictly_increases, lemma_pow2_unfold, pow2,
};
use vstd::prelude::*;

verus! {

/// Whether the `j`-th binary digit of `k` is one, counted from the least significant.
pub open spec fn bit(k: int, j: int) -> bool {
    (k / pow2(j as nat) as int) % 2 == 1
}

/// The product, over the first `n` binary digits of `k`, of the entry of `hi` where the digit is
/// one and of the entry of `lo` where it is zero.
pub open spec fn select_product(lo: Seq<int>, hi: Seq<int>, k: int, n: int) -> int
    decreases n,
{
    if n <= 0 {
        1
    } else {
        select_product(lo, hi, k, n - 1) * (if bit(k, n - 1) {
            hi[n - 1]
        } else {
            lo[n - 1]
        })
    }
}

/// The products of `select_product` for every number of as many binary digits as there are entries.
pub open spec fn select_table(lo: Seq<int>, hi: Seq<int>) -> Seq<int> {
    Seq::new(pow2(hi.len()), |k: int| select_product(lo, hi, k, hi.len() as int))
}

/// As many ones.
pub open spec fn ones(n: nat) -> Seq<int> {
    Seq::new(n, |i: int| 1)
}

/// The sequence with every entry reduced.
pub open spec fn reduced(s: Seq<int>) -> Seq<int> {
    Seq::new(s.len(), |i: int| s[i] % order())
}

/// The evaluations, over the hypercube, of the polynomial that belongs to the challenges `cs`: at
/// the vertex `k`, the product of the challenges at the places where `k` has a binary digit one, the
/// first challenge at the most significant place.
pub open spec fn evaluations(cs: Seq<int>) -> Seq<int> {
    reduced(select_table(ones(cs.len()), cs.reverse()))
}

/// The product of the first `n` of the factors `1 + c[i] * p[i] - p[i]`.
pub open spec fn partial_line_product(c: Seq<int>, p: Seq<int>, n: int) -> int
    decreases n,
{
    if n <= 0 {
        1
    } else {
        partial_line_product(c, p, n - 1) * (1 + c[n - 1] * p[n - 1] - p[n - 1])
    }
}

/// The product of the factors `1 + c[i] * p[i] - p[i]`, one for each entry of `p`.
pub open spec fn line_product(c: Seq<int>, p: Seq<int>) -> int {
    partial_line_product(c, p, p.len() as int)
}

/// One minus each entry.
pub open spec fn complements(p: Seq<int>) -> Seq<int> {
    Seq::new(p.len(), |i: int| 1 - p[i])
}

/// How much each vertex of the hypercube weighs at the point `p`: the product of the coordinates at
/// the places where the vertex has a binary digit one, and of their complements elsewhere, the first
/// coordinate at the least significant place.
pub open spec fn vertex_weights(p: Seq<int>) -> Seq<int> {
    select_table(complements(p), p)
}

/// The value at the point `p` of the multilinear polynomial with these evaluations over the
/// hypercube.
pub open spec fn multilinear_value(evals: Seq<int>, p: Seq<int>) -> int {
    dot(evals, vertex_weights(p)) % order()
}

/// The scalars that belong to the point `q`: the weights of the vertices, the first coordinate at
/// the most significant place.
pub open spec fn tensor(q: Seq<int>) -> Seq<int> {
    reduced(vertex_weights(q.reverse()))
}

/// A selected product is the product of what is selected.
pub proof fn lemma_select_is_product(
    lo: Seq<int>,
    hi: Seq<int>,
    k: int,
    factors: Seq<int>,
    n: int,
)
    requires
        0 <= n <= factors.len(),
        forall|j: int|
            0 <= j < n ==> #[trigger] factors[j] == (if bit(k, j) {
                hi[j]
            } else {
                lo[j]
            }),
    ensures
        select_product(lo, hi, k, n) == product(factors.take(n)),
    decreases n,
{
    if n > 0 {
        lemma_select_is_product(lo, hi, k, factors, n - 1);
        assert(factors.take(n).drop_last() =~= factors.take(n - 1));
    }
}

impl MippProof {
    /// The evaluations, over the hypercube, of the polynomial of a list of challenges.
    pub fn polynomial_evaluations_from_transcript(cs_inv: &[Scalar]) -> (r: Vec<Scalar>)
        requires
            pow2(cs_inv@.len()) <= usize::MAX,
        ensures
            scalar_values(r@) == evaluations(scalar_values(cs_inv@)),
            r@.len() == pow2(cs_inv@.len()),
            forall|k: int|
                0 <= k < r@.len() ==> (#[trigger] r@[k])@ == product(
                    Seq::new(
                        cs_inv@.len(),
                        |j: int|
                            if (k / pow2(j as nat) as int) % 2 == 1 {
                                cs_inv@[cs_inv@.len() - 1 - j]@
                            } else {
                                1
                            },
                    ),
                ) % order(),
    {
        let m: usize = cs_inv.len();
        let ghost cs = scalar_values(cs_inv@);
        let ghost lo = ones(m as nat);
        let ghost hi = cs.reverse();
        let mut size: usize = 1;
        let mut i: usize = 0;
        proof {
            vstd::arithmetic::power2::lemma2_to64();
        }
        while i < m
            invariant
                i <= m,
                size == pow2(i as nat),
                pow2(m as nat) <= usize::MAX,
            decreases m - i,
        {
            proof {
                lemma_pow2_unfold((i + 1) as nat);
                if i + 1 < m {
                    lemma_pow2_strictly_increases((i + 1) as nat, m as nat);
                }
            }
            size = size * 2;
            i = i + 1;
        }
        let mut evals: Vec<Scalar> = Vec::new();
        let mut k: usize = 0;
        while k < size
            invariant
                k <= size,
                m == cs_inv@.len(),
                cs == scalar_values(cs_inv@),
                lo == ones(m as nat),
                hi == cs.reverse(),
                evals@.len() == k,
                forall|i: int|
                    0 <= i < k ==> (#[trigger] evals@[i])@ == select_product(lo, hi, i, m as int)
                        % order(),
            decreases size - k,
        {
            let mut res: Scalar = Scalar::one();
            let mut rest: usize = k;
            let mut j: usize = 0;
            proof {
                vstd::arithmetic::power2::lemma2_to64();
            }
            while j < m
                invariant
                    j <= m,
                    m == cs_inv@.len(),
                    cs == scalar_values(cs_inv@),
                    lo == ones(m as nat),
                    hi == cs.reverse(),
                    rest as int == k as int / pow2(j as nat) as int,
                    res@ == select_product(lo, hi, k as int, j as int) % order(),
                decreases m - j,
            {
                let ghost before = select_product(lo, hi, k as int, j as int);
                if rest % 2 == 1 {
                    res = res.times(&cs_inv[m - j - 1]);
                    proof {
                        lemma_congruent_mod(before);
                        lemma_congruent_ops(before % order(), before, hi[j as int], hi[j as int]);
                    }
                }
                proof {
                    lemma_pow2_pos(j as nat);
                    lemma_pow2_unfold((j + 1) as nat);
                    lemma_div_denominator(k as int, pow2(j as nat) as int, 2);
                }
                rest = rest / 2;
                j = j + 1;
            }
            evals.push(res);
            k = k + 1;
        }
        assert(scalar_values(evals@) =~= evaluations(cs));
        assert forall|k: int| 0 <= k < evals@.len() implies (#[trigger] evals@[k])@ == product(
            Seq::new(
                cs_inv@.len(),
                |j: int|
                    if (k / pow2(j as nat) as int) % 2 == 1 {
                        cs_inv@[cs_inv@.len() - 1 - j]@
                    } else {
                        1
                    },
            ),
        ) % order() by {
            let factors = Seq::new(
                cs_inv@.len(),
                |j: int|
                    if (k / pow2(j as nat) as int) % 2 == 1 {
                        cs_inv@[cs_inv@.len() - 1 - j]@
                    } else {
                        1
                    },
            );
            lemma_select_is_product(lo, hi, k, factors, m as int);
            assert(factors.take(m as int) =~= factors);
        }
        evals
    }
}

} // verus!
