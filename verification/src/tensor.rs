//! Inner products with tables of products, and folding as an inner product with such a table.

use crate::algebra::{
    congruent, dot, fold, lemma_congruent_mod, lemma_congruent_ops, lemma_dot_congruent,
    lemma_partial_dot_congruent, order, partial_dot,
};
use crate::polynomial::{
    bit, complements, evaluations, line_product, ones, partial_line_product, select_product,
    select_table, tensor, vertex_weights,
};
use vstd::arithmetic::div_mod::{lemma_basic_div, lemma_hoist_over_denominator};
use vstd::arithmetic::power2::{lemma_pow2_adds, lemma_pow2_pos, lemma_pow2_unfold, pow2};
use vstd::prelude::*;

verus! {

/// Adding a power of two to a number below it sets one more binary digit and leaves the others.
proof fn lemma_bit_high(k: int, n: nat)
    requires
        0 <= k < pow2(n),
    ensures
        !bit(k, n as int),
        bit(k + pow2(n), n as int),
        forall|j: int| 0 <= j < n ==> bit(k + pow2(n), j) == #[trigger] bit(k, j),
{
    lemma_pow2_pos(n);
    lemma_basic_div(k, pow2(n) as int);
    lemma_hoist_over_denominator(k, 1, pow2(n));
    assert forall|j: int| 0 <= j < n implies bit(k + pow2(n), j) == #[trigger] bit(k, j) by {
        let low = pow2(j as nat);
        let high = pow2((n - j) as nat);
        lemma_pow2_pos(j as nat);
        lemma_pow2_adds(j as nat, (n - j) as nat);
        lemma_pow2_unfold((n - j) as nat);
        lemma_hoist_over_denominator(k, high as int, low);
        assert(low * high == high * low) by (nonlinear_arith);
    }
}

/// The digits below a power of two select the same product when the power is added.
proof fn lemma_select_shift(lo: Seq<int>, hi: Seq<int>, k: int, n: nat, j: int)
    requires
        0 <= k < pow2(n),
        0 <= j <= n,
    ensures
        select_product(lo, hi, k + pow2(n), j) == select_product(lo, hi, k, j),
    decreases j,
{
    if j > 0 {
        lemma_bit_high(k, n);
        lemma_select_shift(lo, hi, k, n, j - 1);
        assert(bit(k + pow2(n), j - 1) == bit(k, j - 1));
    }
}

/// The products selected by every number of `n` binary digits.
spec fn table(lo: Seq<int>, hi: Seq<int>, n: nat) -> Seq<int> {
    Seq::new(pow2(n), |k: int| select_product(lo, hi, k, n as int))
}

/// A table for one more digit is the table scaled by one entry, and then by another.
proof fn lemma_table_halves(lo: Seq<int>, hi: Seq<int>, n: nat)
    ensures
        pow2(n + 1) == 2 * pow2(n),
        forall|k: int|
            0 <= k < pow2(n) ==> #[trigger] table(lo, hi, n + 1)[k] == table(lo, hi, n)[k]
                * lo[n as int],
        forall|k: int|
            0 <= k < pow2(n) ==> table(lo, hi, n + 1)[pow2(n) + k] == #[trigger] table(
                lo,
                hi,
                n,
            )[k] * hi[n as int],
{
    lemma_pow2_unfold(n + 1);
    assert forall|k: int| 0 <= k < pow2(n) implies #[trigger] table(lo, hi, n + 1)[k] == table(
        lo,
        hi,
        n,
    )[k] * lo[n as int] by {
        lemma_bit_high(k, n);
    }
    assert forall|k: int| 0 <= k < pow2(n) implies table(lo, hi, n + 1)[pow2(n) + k]
        == #[trigger] table(lo, hi, n)[k] * hi[n as int] by {
        lemma_bit_high(k, n);
        lemma_select_shift(lo, hi, k, n, n as int);
    }
}

/// Scaled entries from some place on add a scaled inner product.
pub proof fn lemma_partial_dot_scaled(
    a: Seq<int>,
    b: Seq<int>,
    c: Seq<int>,
    d: Seq<int>,
    s: int,
    t: int,
    from: int,
    n: int,
)
    requires
        from >= 0,
        n >= 0,
        forall|i: int| 0 <= i < n ==> c[from + i] == #[trigger] a[i] * s,
        forall|i: int| 0 <= i < n ==> d[from + i] == #[trigger] b[i] * t,
    ensures
        partial_dot(c, d, from + n) == partial_dot(c, d, from) + s * t * partial_dot(a, b, n),
    decreases n,
{
    if n > 0 {
        lemma_partial_dot_scaled(a, b, c, d, s, t, from, n - 1);
        let x = a[n - 1];
        let y = b[n - 1];
        let rest = partial_dot(a, b, n - 1);
        assert(s * t * (rest + x * y) == s * t * rest + (x * s) * (y * t)) by (nonlinear_arith);
    } else {
        assert(s * t * 0 == 0) by (nonlinear_arith);
    }
}

/// The product of the first `n` of the sums `lo[i] * other_lo[i] + hi[i] * other_hi[i]`.
spec fn pair_product(
    lo: Seq<int>,
    hi: Seq<int>,
    other_lo: Seq<int>,
    other_hi: Seq<int>,
    n: nat,
) -> int
    decreases n,
{
    if n == 0 {
        1
    } else {
        let i = n - 1;
        pair_product(lo, hi, other_lo, other_hi, i as nat) * (lo[i] * other_lo[i] + hi[i]
            * other_hi[i])
    }
}

/// The inner product of two tables is a product of sums of two terms.
proof fn lemma_dot_tables(
    lo: Seq<int>,
    hi: Seq<int>,
    other_lo: Seq<int>,
    other_hi: Seq<int>,
    n: nat,
)
    ensures
        partial_dot(table(lo, hi, n), table(other_lo, other_hi, n), pow2(n) as int)
            == pair_product(lo, hi, other_lo, other_hi, n),
    decreases n,
{
    if n == 0 {
        vstd::arithmetic::power2::lemma2_to64();
        let a = table(lo, hi, 0);
        let b = table(other_lo, other_hi, 0);
        assert(partial_dot(a, b, 0) == 0);
        assert(partial_dot(a, b, 1) == a[0] * b[0]);
    } else {
        let m = (n - 1) as nat;
        let size = pow2(m) as int;
        let a = table(lo, hi, m);
        let b = table(other_lo, other_hi, m);
        let c = table(lo, hi, n);
        let d = table(other_lo, other_hi, n);
        lemma_dot_tables(lo, hi, other_lo, other_hi, m);
        lemma_table_halves(lo, hi, m);
        lemma_table_halves(other_lo, other_hi, m);
        assert forall|i: int| 0 <= i < size implies c[0 + i] == #[trigger] a[i] * lo[m as int] by {
            assert(c[i] == a[i] * lo[m as int]);
        }
        assert forall|i: int| 0 <= i < size implies d[0 + i] == #[trigger] b[i] * other_lo[m as int]
            by {
            assert(d[i] == b[i] * other_lo[m as int]);
        }
        lemma_partial_dot_scaled(a, b, c, d, lo[m as int], other_lo[m as int], 0, size);
        lemma_partial_dot_scaled(a, b, c, d, hi[m as int], other_hi[m as int], size, size);
        let p = partial_dot(a, b, size);
        let x = lo[m as int] * other_lo[m as int];
        let z = hi[m as int] * other_hi[m as int];
        assert(x * p + z * p == p * (x + z)) by (nonlinear_arith);
    }
}

/// An inner product does not depend on the order of its factors.
pub proof fn lemma_partial_dot_commutes(a: Seq<int>, b: Seq<int>, n: int)
    ensures
        partial_dot(a, b, n) == partial_dot(b, a, n),
    decreases n,
{
    if n > 0 {
        lemma_partial_dot_commutes(a, b, n - 1);
        assert(a[n - 1] * b[n - 1] == b[n - 1] * a[n - 1]) by (nonlinear_arith);
    }
}

/// The table of a list of challenges against the weights at a point.
proof fn lemma_pair_product_lines(c: Seq<int>, p: Seq<int>, n: nat)
    requires
        n <= c.len(),
        n <= p.len(),
    ensures
        pair_product(ones(c.len()), c, complements(p), p, n) == partial_line_product(
            c,
            p,
            n as int,
        ),
    decreases n,
{
    if n > 0 {
        lemma_pair_product_lines(c, p, (n - 1) as nat);
    }
}

/// The evaluations of a list of challenges against the weights at a point.
pub proof fn lemma_evaluations_dot(cs: Seq<int>, p: Seq<int>)
    requires
        p.len() == cs.len(),
    ensures
        evaluations(cs).len() == pow2(cs.len()),
        vertex_weights(p).len() == pow2(cs.len()),
        congruent(dot(evaluations(cs), vertex_weights(p)), line_product(cs.reverse(), p)),
{
    let m = cs.len();
    let c = cs.reverse();
    let evals = evaluations(cs);
    let weights = vertex_weights(p);
    assert(weights =~= table(complements(p), p, m));
    assert(select_table(ones(m), c) =~= table(ones(m), c, m));
    assert forall|i: int| 0 <= i < evals.len() implies congruent(
        #[trigger] evals[i],
        table(ones(m), c, m)[i],
    ) by {
        lemma_congruent_mod(table(ones(m), c, m)[i]);
    }
    lemma_dot_congruent(evals, table(ones(m), c, m), weights);
    lemma_dot_tables(ones(m), c, complements(p), p, m);
    lemma_pair_product_lines(c, p, m);
}

/// The lines of two sequences from their ends, times those of the rest from their beginnings.
proof fn lemma_line_product_from_end(c: Seq<int>, p: Seq<int>, n: int)
    requires
        c.len() == p.len(),
        0 <= n <= p.len(),
    ensures
        partial_line_product(c.reverse(), p.reverse(), n) * partial_line_product(c, p, p.len() - n)
            == line_product(c, p),
    decreases n,
{
    if n > 0 {
        lemma_line_product_from_end(c, p, n - 1);
        let i = p.len() - n;
        let f = 1 + c[i] * p[i] - p[i];
        let x = partial_line_product(c.reverse(), p.reverse(), n - 1);
        let y = partial_line_product(c, p, i);
        assert(c.reverse()[n - 1] == c[i]);
        assert(p.reverse()[n - 1] == p[i]);
        assert(partial_line_product(c, p, i + 1) == y * f);
        assert((x * f) * y == x * (y * f)) by (nonlinear_arith);
    } else {
        let y = line_product(c, p);
        assert(1 * y == y) by (nonlinear_arith);
    }
}

/// Two sequences that are both reversed have the same lines.
pub proof fn lemma_line_product_reversed(c: Seq<int>, p: Seq<int>)
    requires
        c.len() == p.len(),
    ensures
        line_product(c.reverse(), p.reverse()) == line_product(c, p),
{
    lemma_line_product_from_end(c, p, p.len() as int);
    let x = line_product(c.reverse(), p.reverse());
    assert(x * 1 == x) by (nonlinear_arith);
}

/// A sequence folded in half once for each of the challenges.
pub open spec fn fold_rounds(s: Seq<int>, cs: Seq<int>) -> Seq<int>
    decreases cs.len(),
{
    if cs.len() == 0 {
        s
    } else {
        let before = fold_rounds(s, cs.drop_last());
        fold(before, before.len() as int / 2, cs.last())
    }
}

/// The first round may be taken before the others.
proof fn lemma_fold_rounds_first(s: Seq<int>, cs: Seq<int>)
    requires
        cs.len() > 0,
    ensures
        fold_rounds(s, cs) == fold_rounds(
            fold(s, s.len() as int / 2, cs[0]),
            cs.drop_first(),
        ),
    decreases cs.len(),
{
    if cs.len() == 1 {
        assert(fold_rounds(s, cs.drop_last()) == s);
    } else {
        lemma_fold_rounds_first(s, cs.drop_last());
        assert(cs.drop_last().drop_first() =~= cs.drop_first().drop_last());
    }
}

/// The products of the same entries are the same.
proof fn lemma_select_agree(
    lo: Seq<int>,
    hi: Seq<int>,
    other_lo: Seq<int>,
    other_hi: Seq<int>,
    k: int,
    n: int,
)
    requires
        forall|i: int| 0 <= i < n ==> #[trigger] lo[i] == other_lo[i],
        forall|i: int| 0 <= i < n ==> #[trigger] hi[i] == other_hi[i],
    ensures
        select_product(lo, hi, k, n) == select_product(other_lo, other_hi, k, n),
    decreases n,
{
    if n > 0 {
        lemma_select_agree(lo, hi, other_lo, other_hi, k, n - 1);
    }
}

/// An inner product with a folded sequence is one with each of its halves.
pub proof fn lemma_fold_dot(s: Seq<int>, n: int, c: int, t: Seq<int>, k: int)
    requires
        s.len() == 2 * n,
        0 <= k <= n,
    ensures
        congruent(
            partial_dot(fold(s, n, c), t, k),
            partial_dot(s, t, k) + c * partial_dot(s.skip(n), t, k),
        ),
    decreases k,
{
    let w = fold(s, n, c);
    let r = s.skip(n);
    if k > 0 {
        lemma_fold_dot(s, n, c, t, k - 1);
        let i = k - 1;
        let x = s[i] + s[n + i] * c;
        let p = partial_dot(s, t, i);
        let q = partial_dot(r, t, i);
        lemma_congruent_mod(x);
        lemma_congruent_ops(w[i], x, t[i], t[i]);
        lemma_congruent_ops(partial_dot(w, t, i), p + c * q, w[i] * t[i], x * t[i]);
        let y = s[i];
        let z = s[n + i];
        let f = t[i];
        assert(r[i] == z);
        assert((p + c * q) + (y + z * c) * f == (p + y * f) + c * (q + z * f)) by (nonlinear_arith);
    } else {
        assert(c * 0 == 0) by (nonlinear_arith);
    }
}

/// Folding a sequence down to one entry is taking its inner product with the evaluations.
pub proof fn lemma_fold_rounds_dot(s: Seq<int>, cs: Seq<int>)
    requires
        s.len() == pow2(cs.len()),
        forall|i: int| 0 <= i < s.len() ==> 0 <= #[trigger] s[i] < order(),
    ensures
        fold_rounds(s, cs) == seq![dot(s, evaluations(cs)) % order()],
{
    let m = cs.len();
    let t = table(ones(m), cs.reverse(), m);
    let evals = evaluations(cs);
    lemma_fold_rounds_table(s, cs);
    assert(select_table(ones(m), cs.reverse()) =~= t);
    assert forall|i: int| 0 <= i < evals.len() implies congruent(#[trigger] evals[i], t[i]) by {
        lemma_congruent_mod(t[i]);
    }
    lemma_partial_dot_congruent(s, s, evals, t, pow2(m) as int);
}

/// Folding a sequence down to one entry is taking its inner product with a table.
proof fn lemma_fold_rounds_table(s: Seq<int>, cs: Seq<int>)
    requires
        s.len() == pow2(cs.len()),
        forall|i: int| 0 <= i < s.len() ==> 0 <= #[trigger] s[i] < order(),
    ensures
        fold_rounds(s, cs) == seq![
            dot(s, table(ones(cs.len()), cs.reverse(), cs.len())) % order(),
        ],
    decreases cs.len(),
{
    let m = cs.len();
    let t = table(ones(m), cs.reverse(), m);
    if m == 0 {
        vstd::arithmetic::power2::lemma2_to64();
        assert(partial_dot(s, t, 0) == 0);
        assert(partial_dot(s, t, 1) == s[0] * 1);
        assert(s =~= seq![dot(s, t) % order()]);
    } else {
        let k = (m - 1) as nat;
        let size = pow2(k) as int;
        let rest = cs.drop_first();
        let c = cs[0];
        let w = fold(s, size, c);
        let low = table(ones(m), cs.reverse(), k);
        lemma_pow2_unfold(m);
        lemma_table_halves(ones(m), cs.reverse(), k);
        lemma_fold_rounds_first(s, cs);
        lemma_fold_rounds_table(w, rest);
        assert forall|i: int| 0 <= i < size implies table(ones(k), rest.reverse(), k)[i]
            == #[trigger] low[i] by {
            assert forall|j: int| 0 <= j < k implies #[trigger] rest.reverse()[j]
                == cs.reverse()[j] by {
            }
            lemma_select_agree(ones(k), rest.reverse(), ones(m), cs.reverse(), i, k as int);
        }
        assert(table(ones(k), rest.reverse(), k) =~= low);
        let right = s.skip(size);
        assert forall|i: int| 0 <= i < size implies t[0 + i] == #[trigger] low[i] * 1 by {
            assert(t[i] == low[i] * ones(m)[k as int]);
        }
        assert forall|i: int| 0 <= i < size implies t[size + i] == #[trigger] low[i] * c by {
            assert(t[size + i] == low[i] * cs.reverse()[k as int]);
        }
        lemma_partial_dot_scaled(s, low, s, t, 1, 1, 0, size);
        lemma_partial_dot_scaled(right, low, s, t, 1, c, size, size);
        lemma_fold_dot(s, size, c, low, size);
        let p = partial_dot(s, low, size);
        let q = partial_dot(right, low, size);
        assert(1 * 1 * p == p) by (nonlinear_arith);
        assert(1 * c * q == c * q) by (nonlinear_arith);
    }
}

/// The scalars of a point fold down to the product of its lines with the challenges.
pub proof fn lemma_fold_rounds_tensor(q: Seq<int>, cs: Seq<int>)
    requires
        q.len() == cs.len(),
    ensures
        tensor(q).len() == pow2(cs.len()),
        fold_rounds(tensor(q), cs) == seq![line_product(cs, q) % order()],
{
    let y = tensor(q);
    let weights = vertex_weights(q.reverse());
    let evals = evaluations(cs);
    let size = pow2(cs.len()) as int;
    assert(y.len() == size);
    lemma_fold_rounds_dot(y, cs);
    lemma_evaluations_dot(cs, q.reverse());
    lemma_line_product_reversed(cs, q);
    assert forall|i: int| 0 <= i < size implies congruent(#[trigger] y[i], weights[i]) by {
        lemma_congruent_mod(weights[i]);
    }
    lemma_partial_dot_congruent(y, weights, evals, evals, size);
    lemma_partial_dot_commutes(weights, evals, size);
}

/// The evaluations of a list of challenges are those of the list without its first, and then these
/// scaled by it.
pub proof fn lemma_evaluations_halves(cs: Seq<int>)
    requires
        cs.len() > 0,
    ensures
        evaluations(cs).len() == 2 * evaluations(cs.drop_first()).len(),
        forall|k: int|
            0 <= k < evaluations(cs.drop_first()).len() ==> evaluations(cs)[k] == #[trigger] evaluations(
                cs.drop_first(),
            )[k],
        forall|k: int|
            0 <= k < evaluations(cs.drop_first()).len() ==> evaluations(cs)[evaluations(
                cs.drop_first(),
            ).len() + k] == (#[trigger] evaluations(cs.drop_first())[k] * cs[0]) % order(),
{
    let m = cs.len();
    let k = (m - 1) as nat;
    let size = pow2(k) as int;
    let rest = cs.drop_first();
    let low = table(ones(m), cs.reverse(), k);
    let full = table(ones(m), cs.reverse(), m);
    lemma_table_halves(ones(m), cs.reverse(), k);
    assert forall|i: int| 0 <= i < size implies select_product(
        ones(k),
        rest.reverse(),
        i,
        k as int,
    ) == #[trigger] low[i] by {
        assert forall|j: int| 0 <= j < k implies #[trigger] rest.reverse()[j] == cs.reverse()[j] by {
        }
        lemma_select_agree(ones(k), rest.reverse(), ones(m), cs.reverse(), i, k as int);
    }
    assert forall|i: int| 0 <= i < size implies evaluations(cs)[i] == #[trigger] evaluations(
        rest,
    )[i] by {
        assert(full[i] == low[i] * ones(m)[k as int]);
        assert(full[i] == low[i] * 1);
        assert(evaluations(rest)[i] == low[i] % order());
        assert(evaluations(cs)[i] == full[i] % order());
    }
    assert forall|i: int| 0 <= i < size implies evaluations(cs)[size + i] == (
    #[trigger] evaluations(rest)[i] * cs[0]) % order() by {
        assert(full[size + i] == low[i] * cs.reverse()[k as int]);
        assert(evaluations(rest)[i] == low[i] % order());
        assert(evaluations(cs)[size + i] == full[size + i] % order());
        lemma_congruent_mod(low[i]);
        lemma_congruent_ops(low[i] % order(), low[i], cs[0], cs[0]);
    }
}

} // verus!
