use vstd::arithmetic::div_mod::{lemma_mod_bound, lemma_small_mod};
use vstd::prelude::*;

use crate::field::{lemma_view_reduced, modulus, product_of, values, GoldilocksField};

verus! {

/// A handle on a wire of a circuit under construction.
#[derive(Clone, Copy, Debug, PartialEq, Eq, Structural)]
pub struct Target {
    pub index: usize,
}

/// How a wire of the circuit gets its value.
#[derive(Clone, Copy, Debug)]
pub enum Wire {
    /// A value that the prover supplies in the witness.
    Input,
    /// A fixed field element.
    Constant(GoldilocksField),
    /// The product of two earlier wires.
    Mul(usize, usize),
    /// `a * b - c` over three earlier wires.
    MulSub(usize, usize, usize),
}

/// Wire `i` reads only wires before it.
pub open spec fn reads_earlier(w: Wire, i: int) -> bool {
    match w {
        Wire::Input => true,
        Wire::Constant(_) => true,
        Wire::Mul(a, b) => a < i && b < i,
        Wire::MulSub(a, b, c) => a < i && b < i && c < i,
    }
}

/// Every wire reads only wires before it.
pub open spec fn well_formed(wires: Seq<Wire>) -> bool {
    forall|i: int| 0 <= i < wires.len() ==> reads_earlier(#[trigger] wires[i], i)
}

/// `new` is `old` with wires appended.
pub open spec fn extends(old: Seq<Wire>, new: Seq<Wire>) -> bool {
    old.len() <= new.len() && new.subrange(0, old.len() as int) == old
}

/// The value of wire `i` when the input wires take their values from `witness` (entry
/// `i` of the witness for input wire `i`).
pub open spec fn wire_value(wires: Seq<Wire>, witness: Seq<int>, i: int) -> int
    decreases i,
{
    if 0 <= i < wires.len() {
        match wires[i] {
            Wire::Input => witness[i] % modulus(),
            Wire::Constant(c) => c@,
            Wire::Mul(a, b) => if a < i && b < i {
                (wire_value(wires, witness, a as int) * wire_value(wires, witness, b as int))
                    % modulus()
            } else {
                0
            },
            Wire::MulSub(a, b, c) => if a < i && b < i && c < i {
                (wire_value(wires, witness, a as int) * wire_value(wires, witness, b as int)
                    - wire_value(wires, witness, c as int)) % modulus()
            } else {
                0
            },
        }
    } else {
        0
    }
}

/// The values of a sequence of targets.
pub open spec fn target_values(wires: Seq<Wire>, witness: Seq<int>, ts: Seq<Target>) -> Seq<
    int,
> {
    ts.map_values(|t: Target| wire_value(wires, witness, t.index as int))
}

/// Every target names an existing wire.
pub open spec fn all_below(ts: Seq<Target>, n: int) -> bool {
    forall|k: int| 0 <= k < ts.len() ==> (#[trigger] ts[k]).index < n
}

/// Appending wires leaves the value of every existing wire as it was.
pub proof fn lemma_value_stable(old: Seq<Wire>, new: Seq<Wire>, witness: Seq<int>, i: int)
    requires
        extends(old, new),
        0 <= i < old.len(),
    ensures
        wire_value(new, witness, i) == wire_value(old, witness, i),
    decreases i,
{
    assert(new[i] == old[i]) by {
        assert(new.subrange(0, old.len() as int)[i] == new[i]);
    }
    match old[i] {
        Wire::Input => {},
        Wire::Constant(_) => {},
        Wire::Mul(a, b) => {
            if a < i && b < i {
                lemma_value_stable(old, new, witness, a as int);
                lemma_value_stable(old, new, witness, b as int);
            }
        },
        Wire::MulSub(a, b, c) => {
            if a < i && b < i && c < i {
                lemma_value_stable(old, new, witness, a as int);
                lemma_value_stable(old, new, witness, b as int);
                lemma_value_stable(old, new, witness, c as int);
            }
        },
    }
}

/// Appending wires leaves the values of existing targets as they were.
pub proof fn lemma_values_stable(old: Seq<Wire>, new: Seq<Wire>, witness: Seq<int>, ts: Seq<Target>)
    requires
        extends(old, new),
        all_below(ts, old.len() as int),
    ensures
        target_values(new, witness, ts) == target_values(old, witness, ts),
{
    assert forall|k: int| 0 <= k < ts.len() implies target_values(new, witness, ts)[k]
        == target_values(old, witness, ts)[k] by {
        lemma_value_stable(old, new, witness, ts[k].index as int);
    }
    assert(target_values(new, witness, ts) =~= target_values(old, witness, ts));
}

/// Every wire value is a reduced field value.
pub proof fn lemma_value_reduced(wires: Seq<Wire>, witness: Seq<int>, i: int)
    ensures
        0 <= wire_value(wires, witness, i) < modulus(),
{
    if 0 <= i < wires.len() {
        match wires[i] {
            Wire::Input => lemma_mod_bound(witness[i], modulus()),
            Wire::Constant(c) => lemma_view_reduced(c),
            Wire::Mul(a, b) => if a < i && b < i {
                lemma_mod_bound(
                    wire_value(wires, witness, a as int) * wire_value(wires, witness, b as int),
                    modulus(),
                );
            },
            Wire::MulSub(a, b, c) => if a < i && b < i && c < i {
                lemma_mod_bound(
                    wire_value(wires, witness, a as int) * wire_value(wires, witness, b as int)
                        - wire_value(wires, witness, c as int),
                    modulus(),
                );
            },
        }
    }
}

/// An arithmetic circuit under construction: each call that emits a constraint appends a
/// wire and returns a target for it.
pub struct CircuitBuilder {
    pub wires: Vec<Wire>,
}

impl CircuitBuilder {
    /// The wires are well formed.
    pub open spec fn wf(&self) -> bool {
        well_formed(self.wires@)
    }

    /// A builder with no wires.
    pub fn new() -> (r: CircuitBuilder)
        ensures
            r.wires@ == Seq::<Wire>::empty(),
            r.wf(),
    {
        CircuitBuilder { wires: Vec::new() }
    }

    /// Appends `w` and returns its target.
    fn push_wire(&mut self, w: Wire) -> (r: Target)
        requires
            old(self).wf(),
            reads_earlier(w, old(self).wires@.len() as int),
        ensures
            final(self).wires@ == old(self).wires@.push(w),
            final(self).wf(),
            r.index == old(self).wires@.len(),
    {
        let index = self.wires.len();
        self.wires.push(w);
        Target { index }
    }

    /// A new input wire, whose value the witness supplies.
    pub fn add_virtual_target(&mut self) -> (r: Target)
        requires
            old(self).wf(),
        ensures
            final(self).wires@ == old(self).wires@.push(Wire::Input),
            final(self).wf(),
            r.index == old(self).wires@.len(),
    {
        self.push_wire(Wire::Input)
    }

    /// A wire fixed to `c`.
    pub fn constant(&mut self, c: GoldilocksField) -> (r: Target)
        requires
            old(self).wf(),
        ensures
            final(self).wires@ == old(self).wires@.push(Wire::Constant(c)),
            final(self).wf(),
            r.index == old(self).wires@.len(),
    {
        self.push_wire(Wire::Constant(c))
    }

    /// A wire holding `a * b`.
    pub fn mul(&mut self, a: Target, b: Target) -> (r: Target)
        requires
            old(self).wf(),
            a.index < old(self).wires@.len(),
            b.index < old(self).wires@.len(),
        ensures
            final(self).wires@ == old(self).wires@.push(Wire::Mul(a.index, b.index)),
            final(self).wf(),
            r.index == old(self).wires@.len(),
    {
        self.push_wire(Wire::Mul(a.index, b.index))
    }

    /// A wire holding `a * b - c`, in one constraint.
    pub fn mul_sub(&mut self, a: Target, b: Target, c: Target) -> (r: Target)
        requires
            old(self).wf(),
            a.index < old(self).wires@.len(),
            b.index < old(self).wires@.len(),
            c.index < old(self).wires@.len(),
        ensures
            final(self).wires@ == old(self).wires@.push(Wire::MulSub(a.index, b.index, c.index)),
            final(self).wf(),
            r.index == old(self).wires@.len(),
    {
        self.push_wire(Wire::MulSub(a.index, b.index, c.index))
    }

    /// A wire holding the product of `terms`, made by multiplying them one at a time into
    /// a constant one.
    pub fn mul_many(&mut self, terms: &[Target]) -> (r: Target)
        requires
            old(self).wf(),
            all_below(terms@, old(self).wires@.len() as int),
        ensures
            final(self).wf(),
            extends(old(self).wires@, final(self).wires@),
            r.index < final(self).wires@.len(),
            forall|w: Seq<int>|
                #[trigger] wire_value(final(self).wires@, w, r.index as int) == product_of(
                    target_values(old(self).wires@, w, terms@),
                ),
    {
        let ghost start = self.wires@;
        let mut product = self.constant(GoldilocksField::one());
        proof {
            assert(start.subrange(0, start.len() as int) =~= start);
            lemma_extends_push(start, start, Wire::Constant(GoldilocksField(1)));
            assert forall|w: Seq<int>|
                #[trigger] wire_value(self.wires@, w, product.index as int) == product_of(
                    target_values(start, w, terms@.subrange(0, 0)),
                ) by {
                assert(target_values(start, w, terms@.subrange(0, 0)) =~= Seq::<int>::empty());
                lemma_small_mod(1, modulus() as nat);
            }
        }
        let mut i: usize = 0;
        while i < terms.len()
            invariant
                self.wf(),
                extends(start, self.wires@),
                all_below(terms@, start.len() as int),
                product.index < self.wires@.len(),
                i <= terms@.len(),
                forall|w: Seq<int>|
                    #[trigger] wire_value(self.wires@, w, product.index as int) == product_of(
                        target_values(start, w, terms@.subrange(0, i as int)),
                    ),
            decreases terms@.len() - i,
        {
            let ghost before = self.wires@;
            let ghost p = product.index as int;
            let t = terms[i];
            assert(t.index < start.len());
            product = self.mul(product, t);
            proof {
                lemma_extends_push(start, before, Wire::Mul(p as usize, t.index));
                assert forall|w: Seq<int>|
                    #[trigger] wire_value(self.wires@, w, product.index as int) == product_of(
                        target_values(start, w, terms@.subrange(0, i + 1)),
                    ) by {
                    lemma_value_stable(before, self.wires@, w, p);
                    lemma_value_stable(start, self.wires@, w, t.index as int);
                    assert(target_values(start, w, terms@.subrange(0, i + 1)).drop_last()
                        =~= target_values(start, w, terms@.subrange(0, i as int)));
                }
            }
            i = i + 1;
        }
        proof {
            assert(terms@.subrange(0, terms@.len() as int) =~= terms@);
        }
        product
    }

    /// The value of every wire, with the input wires read from `witness` (entry `i` for
    /// wire `i`).
    pub fn evaluate(&self, witness: &[GoldilocksField]) -> (r: Vec<GoldilocksField>)
        requires
            self.wf(),
            witness@.len() == self.wires@.len(),
        ensures
            r@.len() == self.wires@.len(),
            forall|i: int|
                0 <= i < r@.len() ==> #[trigger] r@[i]@ == wire_value(
                    self.wires@,
                    values(witness@),
                    i,
                ),
    {
        let ghost wv = values(witness@);
        let mut res: Vec<GoldilocksField> = Vec::new();
        let mut i: usize = 0;
        while i < self.wires.len()
            invariant
                self.wf(),
                wv == values(witness@),
                witness@.len() == self.wires@.len(),
                i <= self.wires@.len(),
                res@.len() == i,
                forall|j: int|
                    0 <= j < i ==> #[trigger] res@[j]@ == wire_value(self.wires@, wv, j),
            decreases self.wires@.len() - i,
        {
            assert(reads_earlier(self.wires@[i as int], i as int));
            let value = match self.wires[i] {
                Wire::Input => {
                    proof {
                        lemma_view_reduced(witness@[i as int]);
                        lemma_small_mod(witness@[i as int]@ as nat, modulus() as nat);
                    }
                    witness[i]
                },
                Wire::Constant(c) => c,
                Wire::Mul(a, b) => res[a].mul(res[b]),
                Wire::MulSub(a, b, c) => res[a].mul(res[b]).sub(res[c]),
            };
            proof {
                if let Wire::MulSub(a, b, c) = self.wires@[i as int] {
                    let x = wire_value(self.wires@, wv, a as int) * wire_value(self.wires@, wv, b as int);
                    vstd::arithmetic::div_mod::lemma_sub_mod_noop(x, wire_value(self.wires@, wv, c as int), modulus());
                    lemma_value_reduced(self.wires@, wv, c as int);
                    lemma_small_mod(wire_value(self.wires@, wv, c as int) as nat, modulus() as nat);
                    lemma_mod_bound(x, modulus());
                    vstd::arithmetic::div_mod::lemma_mod_twice(x, modulus());
                }
            }
            res.push(value);
            i = i + 1;
        }
        res
    }
}

/// Pushing a wire onto an extension of `old` gives another extension of `old`, and an
/// extension of what was there.
pub proof fn lemma_extends_push(old: Seq<Wire>, mid: Seq<Wire>, w: Wire)
    requires
        extends(old, mid),
    ensures
        extends(old, mid.push(w)),
        extends(mid, mid.push(w)),
{
    assert(mid.push(w).subrange(0, old.len() as int) =~= old);
    assert(mid.push(w).subrange(0, mid.len() as int) =~= mid);
}

/// Extension is transitive.
pub proof fn lemma_extends_trans(a: Seq<Wire>, b: Seq<Wire>, c: Seq<Wire>)
    requires
        extends(a, b),
        extends(b, c),
    ensures
        extends(a, c),
{
    assert(c.subrange(0, a.len() as int) =~= b.subrange(0, a.len() as int));
}

} // verus!
