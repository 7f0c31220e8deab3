//! The numbers behind the groups: inner products modulo the group order, and the multiplicative
//! group of the target field.

use vstd::arithmetic::div_mod::{
    lemma_add_mod_noop, lemma_mod_twice, lemma_mul_mod_noop, lemma_small_mod,
    lemma_sub_mod_noop, lemma_truncate_middle,
};
use vstd::arithmetic::power::pow;
use vstd::prelude::*;

verus! {

/// The order of the scalar field, which is also that of the two source groups of the pairing.
pub open spec fn order() -> int {
    8444461749428370424248824938781546531375899335154063827935233455917409239041int
}

/// The order of the field that the coordinates of the curve come from.
pub open spec fn base_order() -> int {
    258664426012969094010652733694893533536393512754914660539884262666720468348340822774968888139573360124440321458177int
}

/// How many non-zero elements the target field has: it is of degree twelve over the base field.
pub open spec fn unit_count() -> int {
    pow(base_order(), 12) - 1
}

/// How often the order of the source groups goes into the number of units of the target field.
pub open spec fn pairing_cofactor() -> int {
    unit_count() / order()
}

/// The product of all numbers of a sequence.
pub open spec fn product(s: Seq<int>) -> int {
    s.fold_left(1, |x: int, y: int| x * y)
}

/// The sum of the first `n` products of corresponding entries.
pub open spec fn partial_dot(a: Seq<int>, b: Seq<int>, n: int) -> int
    decreases n,
{
    if n <= 0 {
        0
    } else {
        partial_dot(a, b, n - 1) + a[n - 1] * b[n - 1]
    }
}

/// The inner product of two sequences, as far as the shorter one goes.
pub open spec fn dot(a: Seq<int>, b: Seq<int>) -> int {
    partial_dot(a, b, shorter(a.len() as int, b.len() as int))
}

/// The lesser of two lengths.
pub open spec fn shorter(m: int, n: int) -> int {
    if m <= n {
        m
    } else {
        n
    }
}

/// A sequence folded at `split`: to each entry of the left part, the entry at the same place of the
/// right part is added, scaled by `c`; where the right part has no such entry, the left one stays.
pub open spec fn fold(v: Seq<int>, split: int, c: int) -> Seq<int> {
    Seq::new(
        split as nat,
        |i: int|
            if split + i < v.len() {
                (v[i] + v[split + i] * c) % order()
            } else {
                v[i]
            },
    )
}

/// An element of the target field: zero, or a power of one fixed generator of its units.
pub enum FqkValue {
    Zero,
    Power(int),
}

/// The product of two elements of the target field.
pub open spec fn fqk_product(a: FqkValue, b: FqkValue) -> FqkValue {
    match (a, b) {
        (FqkValue::Power(j), FqkValue::Power(k)) => FqkValue::Power((j + k) % unit_count()),
        _ => FqkValue::Zero,
    }
}

/// An element of the target field raised to a power; every element to the power zero is one.
pub open spec fn fqk_power(a: FqkValue, exponent: int) -> FqkValue {
    match a {
        FqkValue::Power(k) => FqkValue::Power((k * exponent) % unit_count()),
        FqkValue::Zero => if exponent == 0 {
            FqkValue::Power(0)
        } else {
            FqkValue::Zero
        },
    }
}

/// The pairing of two points the product of whose multiples is `k`.
pub open spec fn pairing_value(k: int) -> FqkValue {
    FqkValue::Power(pairing_cofactor() * (k % order()))
}

/// The order of the source groups divides the number of units of the target field.
pub proof fn lemma_unit_count()
    ensures
        unit_count() == pairing_cofactor() * order(),
        pairing_cofactor() > 0,
{
    reveal(pow);
    reveal_with_fuel(pow, 13);
}

/// Whether two numbers are congruent modulo the order.
pub open spec fn congruent(x: int, y: int) -> bool {
    x % order() == y % order()
}

/// Congruences add and multiply.
pub proof fn lemma_congruent_ops(a: int, b: int, c: int, d: int)
    requires
        congruent(a, b),
        congruent(c, d),
    ensures
        congruent(a + c, b + d),
        congruent(a - c, b - d),
        congruent(a * c, b * d),
{
    let m = order();
    lemma_add_mod_noop(a, c, m);
    lemma_add_mod_noop(b, d, m);
    lemma_sub_mod_noop(a, c, m);
    lemma_sub_mod_noop(b, d, m);
    lemma_mul_mod_noop(a, c, m);
    lemma_mul_mod_noop(b, d, m);
}

/// A number is congruent to its remainder.
pub proof fn lemma_congruent_mod(x: int)
    ensures
        congruent(x % order(), x),
{
    lemma_mod_twice(x, order());
}

/// A sum may be reduced before or after its terms.
pub proof fn lemma_add_reduced(x: int, y: int)
    ensures
        ((x + y) % order()) % order() == (x % order() + y % order()) % order(),
{
    lemma_congruent_mod(x);
    lemma_congruent_mod(y);
    lemma_congruent_mod(x + y);
    lemma_congruent_ops(x % order(), x, y % order(), y);
}

/// A product may be reduced before or after one of its factors.
pub proof fn lemma_mul_reduced(x: int, y: int)
    ensures
        ((x * y) % order()) % order() == ((x % order()) * y) % order(),
{
    lemma_congruent_mod(x);
    lemma_congruent_mod(x * y);
    lemma_congruent_ops(x % order(), x, y, y);
}

/// A product may be reduced before or after both of its factors.
pub proof fn lemma_mul_reduced_both(x: int, y: int)
    ensures
        (x * y) % order() == ((x % order()) * (y % order())) % order(),
{
    lemma_congruent_mod(x);
    lemma_congruent_mod(y);
    lemma_congruent_ops(x % order(), x, y % order(), y);
}

/// Inner products of congruent entries are congruent.
pub proof fn lemma_partial_dot_congruent(
    a: Seq<int>,
    b: Seq<int>,
    c: Seq<int>,
    d: Seq<int>,
    n: int,
)
    requires
        forall|i: int| 0 <= i < n ==> congruent(#[trigger] a[i], b[i]),
        forall|i: int| 0 <= i < n ==> congruent(#[trigger] c[i], d[i]),
    ensures
        congruent(partial_dot(a, c, n), partial_dot(b, d, n)),
    decreases n,
{
    if n > 0 {
        lemma_partial_dot_congruent(a, b, c, d, n - 1);
        lemma_congruent_ops(a[n - 1], b[n - 1], c[n - 1], d[n - 1]);
        lemma_congruent_ops(
            partial_dot(a, c, n - 1),
            partial_dot(b, d, n - 1),
            a[n - 1] * c[n - 1],
            b[n - 1] * d[n - 1],
        );
    }
}

/// Inner products with congruent left-hand entries are congruent.
pub proof fn lemma_dot_congruent(a: Seq<int>, b: Seq<int>, c: Seq<int>)
    requires
        a.len() == b.len(),
        forall|i: int| 0 <= i < a.len() ==> congruent(#[trigger] a[i], b[i]),
    ensures
        congruent(dot(a, c), dot(b, c)),
{
    lemma_partial_dot_congruent(a, b, c, c, shorter(a.len() as int, c.len() as int));
}

/// Whether the exponent of an element of the target field is a reduced representative.
pub open spec fn fqk_reduced(a: FqkValue) -> bool {
    a matches FqkValue::Power(k) ==> 0 <= k < unit_count()
}

/// An element of the target field with its exponent reduced.
pub open spec fn fqk_normal(a: FqkValue) -> FqkValue {
    match a {
        FqkValue::Power(k) => FqkValue::Power(k % unit_count()),
        FqkValue::Zero => FqkValue::Zero,
    }
}

/// Reducing gives a reduced exponent, and leaves one that is reduced already.
pub proof fn lemma_fqk_normal(a: FqkValue)
    ensures
        fqk_reduced(fqk_normal(a)),
        fqk_reduced(a) ==> fqk_normal(a) == a,
{
    lemma_unit_count();
    assert(pairing_cofactor() * order() > 0) by (nonlinear_arith)
        requires
            pairing_cofactor() > 0,
            order() > 0,
    ;
    if let FqkValue::Power(k) = a {
        if 0 <= k < unit_count() {
            lemma_small_mod(k as nat, unit_count() as nat);
        }
    }
}

/// Products, powers and pairing values have reduced exponents.
pub proof fn lemma_fqk_reduced(a: FqkValue, b: FqkValue, k: int)
    ensures
        fqk_reduced(fqk_product(a, b)),
        fqk_reduced(fqk_power(a, k)),
        fqk_reduced(pairing_value(k)),
{
    lemma_unit_count();
    let c = pairing_cofactor();
    let m = order();
    let x = k % m;
    assert(0 <= c * x < c * m) by (nonlinear_arith)
        requires
            c > 0,
            0 <= x < m,
    ;
    assert(c * m > 0) by (nonlinear_arith)
        requires
            c > 0,
            m > 0,
    ;
}

/// The product of two pairing values is that of the sum.
pub proof fn lemma_pairing_product(j: int, k: int)
    ensures
        fqk_product(pairing_value(j), pairing_value(k)) == pairing_value(j + k),
{
    let c = pairing_cofactor();
    let m = order();
    lemma_unit_count();
    let x = j % m;
    let y = k % m;
    assert(c * x + c * y == c * (x + y)) by (nonlinear_arith);
    lemma_truncate_middle(x + y, c, m);
    lemma_add_mod_noop(j, k, m);
}

/// A power of a pairing value is that of the product.
pub proof fn lemma_pairing_power(k: int, e: int)
    requires
        e >= 0,
    ensures
        fqk_power(pairing_value(k), e) == pairing_value(k * e),
{
    let c = pairing_cofactor();
    let m = order();
    lemma_unit_count();
    let x = k % m;
    assert(c * x * e == c * (x * e)) by (nonlinear_arith);
    assert(x * e >= 0) by (nonlinear_arith)
        requires
            x >= 0,
            e >= 0,
    ;
    lemma_truncate_middle(x * e, c, m);
    lemma_mul_reduced(k, e);
    lemma_congruent_mod(k * e);
}

} // verus!
