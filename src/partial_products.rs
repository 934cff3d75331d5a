use vstd::arithmetic::div_mod::{
    lemma_div_pos_is_pos, lemma_fundamental_div_mod, lemma_mod_add_multiples_vanish, lemma_mod_bound,
    lemma_mod_multiples_basic, lemma_mod_twice, lemma_small_mod, lemma_sub_mod_noop,
};
use vstd::arithmetic::mul::lemma_mul_is_commutative;
use vstd::prelude::*;
use vstd::slice::slice_subrange;

use crate::circuit::{
    all_below, extends, lemma_extends_push, lemma_extends_trans, lemma_value_stable,
    lemma_values_stable, target_values, wire_value, CircuitBuilder, Target, Wire,
};
use crate::field::{
    is_reduced, lemma_product_concat, lemma_product_reduced, modulus, product_of, values,
    GoldilocksField,
};

verus! {

/// The `i`-th chunk of `s`: the `d` elements starting at `i * d`.
pub open spec fn chunk(s: Seq<int>, d: nat, i: int) -> Seq<int> {
    s.subrange(i * d, (i + 1) * d)
}

/// The running products of `v`, taken after each complete chunk of `d` elements; a
/// trailing remainder shorter than `d` has no entry.
pub open spec fn accumulated(v: Seq<int>, d: nat) -> Seq<int> {
    Seq::new(v.len() / d, |i: int| product_of(v.subrange(0, (i + 1) * d)))
}

/// The number of partial products of a sequence of `n` elements, and the number of
/// leading elements they cover.
pub open spec fn layout(n: nat, d: nat) -> (nat, nat) {
    (n / d, (n / d) * d)
}

/// The accumulator going into chunk `i`: `acc` for the first chunk, else the claimed
/// partial product of the chunk before.
pub open spec fn accumulator_before(partials: Seq<int>, acc: int, i: int) -> int {
    if i == 0 {
        acc
    } else {
        partials[i - 1]
    }
}

/// The residual of chunk `i`: `prev * num_product - partial * den_product`, where `prev`
/// is the accumulator going into the chunk.
pub open spec fn chunk_residual(
    num: Seq<int>,
    den: Seq<int>,
    partials: Seq<int>,
    acc: int,
    d: nat,
    i: int,
) -> int {
    (accumulator_before(partials, acc, i) * product_of(chunk(num, d, i)) - partials[i]
        * product_of(chunk(den, d, i))) % modulus()
}

/// One residual per complete chunk of the numerators, in chunk order.
pub open spec fn residuals(
    num: Seq<int>,
    den: Seq<int>,
    partials: Seq<int>,
    acc: int,
    d: nat,
) -> Seq<int> {
    Seq::new(num.len() / d, |i: int| chunk_residual(num, den, partials, acc, d, i))
}

/// On every witness, the targets `res` of the circuit `after` evaluate to the residuals of
/// the values that the input targets take in the circuit `before`.
pub open spec fn emits_check(
    before: Seq<Wire>,
    after: Seq<Wire>,
    numerators: Seq<Target>,
    denominators: Seq<Target>,
    partials: Seq<Target>,
    acc: Target,
    d: nat,
    res: Seq<Target>,
) -> bool {
    forall|w: Seq<int>|
        #[trigger] target_values(after, w, res) == residuals(
            target_values(before, w, numerators),
            target_values(before, w, denominators),
            target_values(before, w, partials),
            wire_value(before, w, acc.index as int),
            d,
        )
}

/// The complete chunks of `n` elements cover at most `n` elements.
pub proof fn lemma_layout_bounds(n: int, d: int)
    requires
        d > 0,
        n >= 0,
    ensures
        0 <= n / d,
        0 <= (n / d) * d <= n,
{
    lemma_fundamental_div_mod(n, d);
    lemma_mod_bound(n, d);
    lemma_div_pos_is_pos(n, d);
    lemma_mul_is_commutative(d, n / d);
    assert(0 <= (n / d) * d) by (nonlinear_arith)
        requires
            0 <= n / d,
            d > 0,
    ;
}

/// Chunk `i` of `n / d` complete chunks lies within the first `n` elements.
pub proof fn lemma_chunk_in_bounds(i: int, n: int, d: int)
    requires
        d > 0,
        n >= 0,
        0 <= i < n / d,
    ensures
        0 <= i * d,
        i * d + d == (i + 1) * d,
        (i + 1) * d <= n,
{
    lemma_layout_bounds(n, d);
    let q = n / d;
    assert(0 <= i * d) by (nonlinear_arith)
        requires
            0 <= i,
            d > 0,
    ;
    assert((i + 1) * d <= q * d) by (nonlinear_arith)
        requires
            i + 1 <= q,
            d > 0,
    ;
    assert(i * d + d == (i + 1) * d) by (nonlinear_arith);
}

/// The product of `v[start..end]`.
fn chunk_product(v: &[GoldilocksField], start: usize, end: usize) -> (r: GoldilocksField)
    requires
        start <= end <= v@.len(),
    ensures
        r@ == product_of(values(v@).subrange(start as int, end as int)),
{
    let mut acc = GoldilocksField::one();
    let mut i: usize = start;
    proof {
        assert(values(v@).subrange(start as int, start as int) =~= Seq::<int>::empty());
    }
    while i < end
        invariant
            start <= i <= end,
            end <= v@.len(),
            acc@ == product_of(values(v@).subrange(start as int, i as int)),
        decreases end - i,
    {
        proof {
            assert(values(v@).subrange(start as int, i + 1).drop_last() =~= values(v@).subrange(
                start as int,
                i as int,
            ));
        }
        acc = acc.mul(v[i]);
        i = i + 1;
    }
    acc
}

/// Computes the running product of `v` after each complete chunk of `max_degree`
/// elements, so that no product involves more than `max_degree` factors. A trailing
/// remainder shorter than `max_degree` is left to the caller.
pub fn partial_products(v: &[GoldilocksField], max_degree: usize) -> (r: Vec<GoldilocksField>)
    requires
        max_degree > 1,
    ensures
        r@.len() == v@.len() / (max_degree as nat),
        forall|i: int|
            0 <= i < r@.len() ==> #[trigger] r@[i]@ == product_of(
                values(v@).subrange(0, (i + 1) * max_degree),
            ),
        values(r@) == accumulated(values(v@), max_degree as nat),
{
    let ghost vv = values(v@);
    let d = max_degree;
    let n = v.len();
    let n_chunks = n / d;
    let mut res: Vec<GoldilocksField> = Vec::new();
    let mut acc = GoldilocksField::one();
    let mut i: usize = 0;
    proof {
        assert(vv.subrange(0, 0) =~= Seq::<int>::empty());
    }
    while i < n_chunks
        invariant
            vv == values(v@),
            d == max_degree,
            d > 1,
            n == v@.len(),
            n_chunks == v@.len() / (d as nat),
            i <= n_chunks,
            res@.len() == i,
            acc@ == product_of(vv.subrange(0, i * d)),
            forall|j: int|
                0 <= j < i ==> #[trigger] res@[j]@ == product_of(vv.subrange(0, (j + 1) * d)),
        decreases n_chunks - i,
    {
        proof {
            lemma_chunk_in_bounds(i as int, v@.len() as int, d as int);
        }
        let start = i * d;
        let end = start + d;
        let c = chunk_product(v, start, end);
        proof {
            lemma_product_concat(vv.subrange(0, start as int), vv.subrange(start as int, end as int));
            assert(vv.subrange(0, start as int) + vv.subrange(start as int, end as int)
                =~= vv.subrange(0, end as int));
        }
        acc = acc.mul(c);
        res.push(acc);
        i = i + 1;
    }
    proof {
        assert(values(res@) =~= accumulated(vv, d as nat));
    }
    res
}

/// Returns `(a, b)`, where `a` is the length of the output of `partial_products` on a
/// sequence of `n` elements, and `b` is the number of elements that it folds in.
pub fn num_partial_products(n: usize, max_degree: usize) -> (r: (usize, usize))
    requires
        max_degree > 1,
    ensures
        r.0 == n / max_degree,
        r.1 == r.0 * max_degree,
        r.1 <= n,
        (r.0 as nat, r.1 as nat) == layout(n as nat, max_degree as nat),
{
    let num_chunks = n / max_degree;
    proof {
        lemma_layout_bounds(n as int, max_degree as int);
    }
    (num_chunks, num_chunks * max_degree)
}

/// Checks that the claimed `partials` agree with the running product of
/// `numerators / denominators` started from `acc`, multiplying at most `max_degree`
/// elements at a time. Returns one residual per chunk; all are zero exactly when every
/// claimed step holds.
pub fn check_partial_products(
    numerators: &[GoldilocksField],
    denominators: &[GoldilocksField],
    partials: &[GoldilocksField],
    acc: GoldilocksField,
    max_degree: usize,
) -> (r: Vec<GoldilocksField>)
    requires
        max_degree > 1,
        numerators@.len() == denominators@.len(),
        partials@.len() == numerators@.len() / (max_degree as nat),
    ensures
        values(r@) == residuals(
            values(numerators@),
            values(denominators@),
            values(partials@),
            acc@,
            max_degree as nat,
        ),
{
    let ghost nv = values(numerators@);
    let ghost dv = values(denominators@);
    let ghost pv = values(partials@);
    let d = max_degree;
    let n = numerators.len();
    let n_chunks = n / d;
    let mut res: Vec<GoldilocksField> = Vec::new();
    let mut cur = acc;
    let mut i: usize = 0;
    while i < n_chunks
        invariant
            nv == values(numerators@),
            dv == values(denominators@),
            pv == values(partials@),
            d == max_degree,
            d > 1,
            numerators@.len() == denominators@.len(),
            partials@.len() == n_chunks,
            n == numerators@.len(),
            n_chunks == numerators@.len() / (d as nat),
            i <= n_chunks,
            res@.len() == i,
            cur@ == accumulator_before(pv, acc@, i as int),
            forall|j: int|
                0 <= j < i ==> #[trigger] res@[j]@ == chunk_residual(nv, dv, pv, acc@, d as nat, j),
        decreases n_chunks - i,
    {
        proof {
            lemma_chunk_in_bounds(i as int, numerators@.len() as int, d as int);
        }
        let start = i * d;
        let end = start + d;
        let nume_product = chunk_product(numerators, start, end);
        let deno_product = chunk_product(denominators, start, end);
        let updated = cur.mul(nume_product);
        let new_acc = partials[i];
        let residual = updated.sub(new_acc.mul(deno_product));
        proof {
            lemma_sub_mod_noop(cur@ * nume_product@, new_acc@ * deno_product@, modulus());
        }
        res.push(residual);
        cur = new_acc;
        i = i + 1;
    }
    proof {
        assert(values(res@) =~= residuals(nv, dv, pv, acc@, d as nat));
    }
    res
}

/// Emits into `builder` the same check as `check_partial_products`, over circuit targets:
/// for each chunk, one constraint `acc * num_product - partial * den_product`. Returns one
/// residual target per chunk, for the caller to constrain to zero.
pub fn check_partial_products_recursively(
    builder: &mut CircuitBuilder,
    numerators: &[Target],
    denominators: &[Target],
    partials: &[Target],
    acc: Target,
    max_degree: usize,
) -> (r: Vec<Target>)
    requires
        max_degree > 1,
        old(builder).wf(),
        numerators@.len() == denominators@.len(),
        partials@.len() == numerators@.len() / (max_degree as nat),
        all_below(numerators@, old(builder).wires@.len() as int),
        all_below(denominators@, old(builder).wires@.len() as int),
        all_below(partials@, old(builder).wires@.len() as int),
        acc.index < old(builder).wires@.len(),
    ensures
        final(builder).wf(),
        extends(old(builder).wires@, final(builder).wires@),
        r@.len() == numerators@.len() / (max_degree as nat),
        all_below(r@, final(builder).wires@.len() as int),
        emits_check(
            old(builder).wires@,
            final(builder).wires@,
            numerators@,
            denominators@,
            partials@,
            acc,
            max_degree as nat,
            r@,
        ),
{
    let ghost w0 = builder.wires@;
    let d = max_degree;
    let n = numerators.len();
    let n_chunks = n / d;
    let mut res: Vec<Target> = Vec::new();
    let mut cur = acc;
    let mut i: usize = 0;
    proof {
        assert(w0.subrange(0, w0.len() as int) =~= w0);
    }
    while i < n_chunks
        invariant
            w0 == old(builder).wires@,
            d == max_degree,
            d > 1,
            builder.wf(),
            extends(w0, builder.wires@),
            numerators@.len() == denominators@.len(),
            n == numerators@.len(),
            n_chunks == numerators@.len() / (d as nat),
            partials@.len() == n_chunks,
            all_below(numerators@, w0.len() as int),
            all_below(denominators@, w0.len() as int),
            all_below(partials@, w0.len() as int),
            acc.index < w0.len(),
            i <= n_chunks,
            res@.len() == i,
            all_below(res@, builder.wires@.len() as int),
            cur.index < builder.wires@.len(),
            forall|w: Seq<int>|
                #[trigger] wire_value(builder.wires@, w, cur.index as int) == accumulator_before(
                    target_values(w0, w, partials@),
                    wire_value(w0, w, acc.index as int),
                    i as int,
                ),
            forall|w: Seq<int>, j: int|
                0 <= j < i ==> #[trigger] wire_value(builder.wires@, w, res@[j].index as int)
                    == chunk_residual(
                    target_values(w0, w, numerators@),
                    target_values(w0, w, denominators@),
                    target_values(w0, w, partials@),
                    wire_value(w0, w, acc.index as int),
                    d as nat,
                    j,
                ),
        decreases n_chunks - i,
    {
        proof {
            lemma_chunk_in_bounds(i as int, n as int, d as int);
        }
        let start = i * d;
        let end = start + d;
        let ghost before = builder.wires@;
        let nume_chunk = slice_subrange(numerators, start, end);
        let deno_chunk = slice_subrange(denominators, start, end);
        proof {
            lemma_all_below_subrange(numerators@, start as int, end as int, w0.len() as int, before.len() as int);
            lemma_all_below_subrange(denominators@, start as int, end as int, w0.len() as int, before.len() as int);
        }
        let nume_product = builder.mul_many(nume_chunk);
        let ghost mid1 = builder.wires@;
        let deno_product = builder.mul_many(deno_chunk);
        let ghost mid2 = builder.wires@;
        let new_acc = partials[i];
        let new_acc_deno = builder.mul(new_acc, deno_product);
        let ghost mid3 = builder.wires@;
        let residual = builder.mul_sub(cur, nume_product, new_acc_deno);
        let ghost after = builder.wires@;
        proof {
            lemma_extends_trans(before, mid1, mid2);
            lemma_extends_push(before, mid2, Wire::Mul(new_acc.index, deno_product.index));
            lemma_extends_push(before, mid3, Wire::MulSub(cur.index, nume_product.index, new_acc_deno.index));
            lemma_extends_push(mid1, mid2, Wire::Mul(new_acc.index, deno_product.index));
            lemma_extends_trans(mid1, mid3, after);
            lemma_extends_trans(mid2, mid3, after);
            lemma_extends_trans(w0, before, after);
            lemma_extends_trans(w0, before, mid1);
            lemma_extends_trans(w0, before, mid3);
            assert forall|w: Seq<int>|
                #[trigger] wire_value(after, w, residual.index as int) == chunk_residual(
                    target_values(w0, w, numerators@),
                    target_values(w0, w, denominators@),
                    target_values(w0, w, partials@),
                    wire_value(w0, w, acc.index as int),
                    d as nat,
                    i as int,
                ) by {
                let nv = target_values(w0, w, numerators@);
                let dv = target_values(w0, w, denominators@);
                let pv = target_values(w0, w, partials@);
                lemma_values_stable(w0, before, w, nume_chunk@);
                lemma_values_stable(w0, before, w, deno_chunk@);
                lemma_values_stable(w0, mid1, w, deno_chunk@);
                assert(target_values(w0, w, nume_chunk@) =~= chunk(nv, d as nat, i as int));
                assert(target_values(w0, w, deno_chunk@) =~= chunk(dv, d as nat, i as int));
                let np = product_of(chunk(nv, d as nat, i as int));
                let dp = product_of(chunk(dv, d as nat, i as int));
                lemma_value_stable(mid1, after, w, nume_product.index as int);
                lemma_value_stable(mid2, after, w, deno_product.index as int);
                lemma_value_stable(mid3, after, w, new_acc_deno.index as int);
                lemma_value_stable(before, after, w, cur.index as int);
                lemma_value_stable(w0, after, w, new_acc.index as int);
                lemma_value_stable(mid2, mid3, w, deno_product.index as int);
                lemma_value_stable(w0, mid3, w, new_acc.index as int);
                assert(wire_value(w0, w, new_acc.index as int) == pv[i as int]);
                let x = accumulator_before(pv, wire_value(w0, w, acc.index as int), i as int) * np;
                let y = pv[i as int] * dp;
                lemma_sub_mod_noop(x, y, modulus());
                lemma_sub_mod_noop(x, y % modulus(), modulus());
                lemma_mod_twice(y, modulus());
            }
            assert forall|w: Seq<int>|
                #[trigger] wire_value(after, w, new_acc.index as int) == accumulator_before(
                    target_values(w0, w, partials@),
                    wire_value(w0, w, acc.index as int),
                    i + 1,
                ) by {
                lemma_value_stable(w0, after, w, new_acc.index as int);
            }
            assert forall|w: Seq<int>, j: int|
                0 <= j < i implies #[trigger] wire_value(after, w, res@[j].index as int)
                    == chunk_residual(
                    target_values(w0, w, numerators@),
                    target_values(w0, w, denominators@),
                    target_values(w0, w, partials@),
                    wire_value(w0, w, acc.index as int),
                    d as nat,
                    j,
                ) by {
                lemma_value_stable(before, after, w, res@[j].index as int);
            }
        }
        res.push(residual);
        cur = new_acc;
        i = i + 1;
    }
    proof {
        assert forall|w: Seq<int>|
            #[trigger] target_values(builder.wires@, w, res@) == residuals(
                target_values(w0, w, numerators@),
                target_values(w0, w, denominators@),
                target_values(w0, w, partials@),
                wire_value(w0, w, acc.index as int),
                d as nat,
            ) by {
            assert forall|j: int| 0 <= j < res@.len() implies target_values(builder.wires@, w, res@)[j]
                == residuals(
                target_values(w0, w, numerators@),
                target_values(w0, w, denominators@),
                target_values(w0, w, partials@),
                wire_value(w0, w, acc.index as int),
                d as nat,
            )[j] by {
                assert(wire_value(builder.wires@, w, res@[j].index as int) == chunk_residual(
                    target_values(w0, w, numerators@),
                    target_values(w0, w, denominators@),
                    target_values(w0, w, partials@),
                    wire_value(w0, w, acc.index as int),
                    d as nat,
                    j,
                ));
            }
            assert(target_values(builder.wires@, w, res@) =~= residuals(
                target_values(w0, w, numerators@),
                target_values(w0, w, denominators@),
                target_values(w0, w, partials@),
                wire_value(w0, w, acc.index as int),
                d as nat,
            ));
        }
    }
    res
}

/// A run of targets below one bound is below any larger bound.
proof fn lemma_all_below_subrange(ts: Seq<Target>, lo: int, hi: int, n: int, m: int)
    requires
        all_below(ts, n),
        n <= m,
        0 <= lo <= hi <= ts.len(),
    ensures
        all_below(ts.subrange(lo, hi), n),
        all_below(ts.subrange(lo, hi), m),
{
    assert forall|k: int| 0 <= k < hi - lo implies (#[trigger] ts.subrange(lo, hi)[k]).index < n by {
        assert(ts.subrange(lo, hi)[k] == ts[lo + k]);
    }
}

/// The product of a sequence of ones is one.
pub proof fn lemma_product_of_ones(s: Seq<int>)
    requires
        forall|k: int| 0 <= k < s.len() ==> s[k] == 1,
    ensures
        product_of(s) == 1,
    decreases s.len(),
{
    if s.len() > 0 {
        lemma_product_of_ones(s.drop_last());
        lemma_small_mod(1, modulus() as nat);
    }
}

/// `x - (x mod ORDER)` is zero in the field.
proof fn lemma_sub_reduced_is_zero(x: int)
    ensures
        (x - x % modulus()) % modulus() == 0,
{
    lemma_fundamental_div_mod(x, modulus());
    lemma_mul_is_commutative(modulus(), x / modulus());
    lemma_mod_multiples_basic(x / modulus(), modulus());
}

/// The layout of `n` elements gives the number of partial products of any sequence of
/// `n` elements, and the elements they cover form whole chunks within the sequence.
pub proof fn lemma_layout_matches_accumulated(v: Seq<int>, d: nat)
    requires
        d > 1,
    ensures
        layout(v.len(), d).0 == accumulated(v, d).len(),
        layout(v.len(), d).1 == layout(v.len(), d).0 * d,
        layout(v.len(), d).1 <= v.len(),
{
    lemma_layout_bounds(v.len() as int, d as int);
}

/// Partial products computed from `v` pass the check against `v` over denominators that
/// are all one, started from one: every residual is zero.
pub proof fn lemma_round_trip(v: Seq<int>, den: Seq<int>, d: nat)
    requires
        d > 1,
        den.len() == v.len(),
        forall|k: int| 0 <= k < den.len() ==> den[k] == 1,
    ensures
        residuals(v, den, accumulated(v, d), 1, d).len() == accumulated(v, d).len(),
        forall|i: int|
            0 <= i < accumulated(v, d).len() ==> #[trigger] residuals(
                v,
                den,
                accumulated(v, d),
                1,
                d,
            )[i] == 0,
{
    let partials = accumulated(v, d);
    assert forall|i: int| 0 <= i < partials.len() implies #[trigger] residuals(
        v,
        den,
        partials,
        1,
        d,
    )[i] == 0 by {
        lemma_chunk_in_bounds(i, v.len() as int, d as int);
        let prefix = v.subrange(0, i * d);
        let c = chunk(v, d, i);
        if i == 0 {
            assert(prefix =~= Seq::<int>::empty());
        }
        assert(accumulator_before(partials, 1, i) == product_of(prefix));
        assert(chunk(den, d, i).len() == d);
        lemma_product_of_ones(chunk(den, d, i));
        lemma_product_concat(prefix, c);
        assert(prefix + c =~= v.subrange(0, (i + 1) * d));
        lemma_sub_reduced_is_zero(product_of(prefix) * product_of(c));
    }
}

/// The last partial product, times the product of the elements left over after the
/// complete chunks, is the product of the whole sequence.
pub proof fn lemma_tail(v: Seq<int>, d: nat)
    requires
        d > 1,
        accumulated(v, d).len() > 0,
    ensures
        (accumulated(v, d).last() * product_of(v.subrange(layout(v.len(), d).1 as int, v.len() as int)))
            % modulus() == product_of(v),
{
    let consumed = layout(v.len(), d).1 as int;
    lemma_chunk_in_bounds(accumulated(v, d).len() - 1, v.len() as int, d as int);
    lemma_layout_bounds(v.len() as int, d as int);
    lemma_product_concat(v.subrange(0, consumed), v.subrange(consumed, v.len() as int));
    assert(v.subrange(0, consumed) + v.subrange(consumed, v.len() as int) =~= v);
}

/// Replacing one honest partial product by a different field value makes the residual
/// of its chunk non-zero, when the denominators are all one and the check starts from
/// one.
pub proof fn lemma_tamper_detected(v: Seq<int>, den: Seq<int>, d: nat, j: int, x: int)
    requires
        d > 1,
        den.len() == v.len(),
        forall|k: int| 0 <= k < den.len() ==> den[k] == 1,
        0 <= j < accumulated(v, d).len(),
        is_reduced(x),
        x != accumulated(v, d)[j],
    ensures
        residuals(v, den, accumulated(v, d).update(j, x), 1, d)[j] != 0,
{
    let partials = accumulated(v, d);
    let tampered = partials.update(j, x);
    lemma_chunk_in_bounds(j, v.len() as int, d as int);
    let prefix = v.subrange(0, j * d);
    let c = chunk(v, d, j);
    if j == 0 {
        assert(prefix =~= Seq::<int>::empty());
    }
    assert(accumulator_before(tampered, 1, j) == product_of(prefix));
    assert(chunk(den, d, j).len() == d);
    lemma_product_of_ones(chunk(den, d, j));
    lemma_product_concat(prefix, c);
    assert(prefix + c =~= v.subrange(0, (j + 1) * d));
    let y = product_of(prefix) * product_of(c);
    let a = partials[j];
    lemma_product_reduced(v.subrange(0, (j + 1) * d));
    assert(a == y % modulus());
    lemma_small_mod(x as nat, modulus() as nat);
    lemma_sub_mod_noop(y, x, modulus());
    lemma_mod_bound(y, modulus());
    // the residual is (a - x) mod ORDER, with a and x distinct and reduced
    if a > x {
        lemma_small_mod((a - x) as nat, modulus() as nat);
    } else {
        lemma_mod_add_multiples_vanish(a - x, modulus());
        lemma_small_mod((a - x + modulus()) as nat, modulus() as nat);
    }
}

/// Evaluated on a witness that gives its input targets the values of `numerators`,
/// `denominators`, `partials` and `acc`, the circuit check yields exactly the residuals
/// that `check_partial_products` returns on those elements.
pub proof fn lemma_circuit_agrees_with_check(
    before: Seq<Wire>,
    after: Seq<Wire>,
    numerator_targets: Seq<Target>,
    denominator_targets: Seq<Target>,
    partial_targets: Seq<Target>,
    acc_target: Target,
    d: nat,
    res: Seq<Target>,
    witness: Seq<int>,
    numerators: Seq<GoldilocksField>,
    denominators: Seq<GoldilocksField>,
    partials: Seq<GoldilocksField>,
    acc: GoldilocksField,
    checked: Seq<GoldilocksField>,
)
    requires
        emits_check(
            before,
            after,
            numerator_targets,
            denominator_targets,
            partial_targets,
            acc_target,
            d,
            res,
        ),
        target_values(before, witness, numerator_targets) == values(numerators),
        target_values(before, witness, denominator_targets) == values(denominators),
        target_values(before, witness, partial_targets) == values(partials),
        wire_value(before, witness, acc_target.index as int) == acc@,
        values(checked) == residuals(
            values(numerators),
            values(denominators),
            values(partials),
            acc@,
            d,
        ),
    ensures
        target_values(after, witness, res) == values(checked),
{
    assert(target_values(after, witness, res) == residuals(
        target_values(before, witness, numerator_targets),
        target_values(before, witness, denominator_targets),
        target_values(before, witness, partial_targets),
        wire_value(before, witness, acc_target.index as int),
        d,
    ));
}

} // verus!
