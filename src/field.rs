use vstd::arithmetic::div_mod::{
    lemma_mod_add_multiples_vanish, lemma_mod_bound, lemma_mul_mod_noop, lemma_mul_mod_noop_left,
    lemma_mul_mod_noop_right, lemma_small_mod,
};
use vstd::prelude::*;

verus! {

/// The order of the Goldilocks field, `2^64 - 2^32 + 1`.
pub const ORDER: u64 = 0xFFFF_FFFF_0000_0001;

/// The field order as a mathematical integer.
pub open spec fn modulus() -> int {
    ORDER as int
}

/// An element of the Goldilocks prime field.
///
/// The stored word need not be reduced: the element it stands for is the word modulo
/// `ORDER`, and every operation returns a reduced word.
#[derive(Clone, Copy, Debug)]
pub struct GoldilocksField(pub u64);

impl View for GoldilocksField {
    type V = int;

    open spec fn view(&self) -> int {
        self.0 as int % modulus()
    }
}

/// The field values of a sequence of elements.
pub open spec fn values(s: Seq<GoldilocksField>) -> Seq<int> {
    s.map_values(|x: GoldilocksField| x@)
}

/// Product of a sequence of field values, reduced modulo the field order; one for the
/// empty sequence.
pub open spec fn product_of(s: Seq<int>) -> int
    decreases s.len(),
{
    if s.len() == 0 {
        1
    } else {
        (product_of(s.drop_last()) * s.last()) % modulus()
    }
}

/// A field value lies in `0 .. ORDER`.
pub open spec fn is_reduced(x: int) -> bool {
    0 <= x < modulus()
}

/// Every element stands for a reduced field value.
pub proof fn lemma_view_reduced(x: GoldilocksField)
    ensures
        is_reduced(x@),
{
    lemma_mod_bound(x.0 as int, modulus());
}

/// A product is a reduced field value.
pub proof fn lemma_product_reduced(s: Seq<int>)
    ensures
        is_reduced(product_of(s)),
    decreases s.len(),
{
    if s.len() > 0 {
        lemma_mod_bound(product_of(s.drop_last()) * s.last(), modulus());
    }
}

/// The product of a concatenation is the field product of the two products.
pub proof fn lemma_product_concat(a: Seq<int>, b: Seq<int>)
    ensures
        product_of(a + b) == (product_of(a) * product_of(b)) % modulus(),
    decreases b.len(),
{
    lemma_product_reduced(a);
    if b.len() == 0 {
        assert(a + b =~= a);
        lemma_small_mod(product_of(a) as nat, modulus() as nat);
    } else {
        let b0 = b.drop_last();
        assert((a + b).drop_last() =~= a + b0);
        assert((a + b).last() == b.last());
        lemma_product_concat(a, b0);
        let pa = product_of(a);
        let pb0 = product_of(b0);
        let x = b.last();
        assert((pa * pb0) * x == pa * (pb0 * x)) by (nonlinear_arith);
        lemma_mul_mod_noop_left(pa * pb0, x, modulus());
        lemma_mul_mod_noop_right(pa, pb0 * x, modulus());
    }
}

impl GoldilocksField {
    /// The additive identity.
    pub fn zero() -> (r: GoldilocksField)
        ensures
            r@ == 0,
            r.0 == 0,
    {
        GoldilocksField(0)
    }

    /// The multiplicative identity.
    pub fn one() -> (r: GoldilocksField)
        ensures
            r@ == 1,
            r.0 == 1,
    {
        proof {
            lemma_small_mod(1, modulus() as nat);
        }
        GoldilocksField(1)
    }

    /// The element `n mod ORDER`.
    pub fn from_canonical_u64(n: u64) -> (r: GoldilocksField)
        ensures
            r@ == n as int % modulus(),
    {
        GoldilocksField(n)
    }

    /// The reduced representative, in `0 .. ORDER`.
    pub fn to_canonical_u64(&self) -> (r: u64)
        ensures
            r as int == self@,
    {
        self.0 % ORDER
    }

    pub fn is_zero(&self) -> (r: bool)
        ensures
            r == (self@ == 0),
    {
        self.to_canonical_u64() == 0
    }

    pub fn add(self, other: GoldilocksField) -> (r: GoldilocksField)
        ensures
            r@ == (self@ + other@) % modulus(),
            r.0 < ORDER,
    {
        let a = self.to_canonical_u64() as u128;
        let b = other.to_canonical_u64() as u128;
        let s = (a + b) % (ORDER as u128);
        proof {
            lemma_mod_bound(a + b, modulus());
            lemma_small_mod(s as nat, modulus() as nat);
        }
        GoldilocksField(s as u64)
    }

    pub fn sub(self, other: GoldilocksField) -> (r: GoldilocksField)
        ensures
            r@ == (self@ - other@) % modulus(),
            r.0 < ORDER,
    {
        let a = self.to_canonical_u64() as u128;
        let b = other.to_canonical_u64() as u128;
        let s = (a + ORDER as u128 - b) % (ORDER as u128);
        proof {
            lemma_mod_bound(a + modulus() - b, modulus());
            lemma_small_mod(s as nat, modulus() as nat);
            lemma_mod_add_multiples_vanish(a - b, modulus());
        }
        GoldilocksField(s as u64)
    }

    pub fn mul(self, other: GoldilocksField) -> (r: GoldilocksField)
        ensures
            r@ == (self@ * other@) % modulus(),
            r.0 < ORDER,
    {
        let a = self.0 as u128;
        let b = other.0 as u128;
        proof {
            assert(a * b <= 0xFFFF_FFFF_FFFF_FFFFu128 * 0xFFFF_FFFF_FFFF_FFFFu128) by (nonlinear_arith)
                requires
                    a <= 0xFFFF_FFFF_FFFF_FFFFu128,
                    b <= 0xFFFF_FFFF_FFFF_FFFFu128,
            ;
        }
        let p = (a * b) % (ORDER as u128);
        proof {
            lemma_mod_bound(a * b, modulus());
            lemma_small_mod(p as nat, modulus() as nat);
            lemma_mul_mod_noop(a as int, b as int, modulus());
        }
        GoldilocksField(p as u64)
    }
}

impl PartialEq for GoldilocksField {
    fn eq(&self, other: &GoldilocksField) -> (r: bool) {
        self.to_canonical_u64() == other.to_canonical_u64()
    }
}

impl vstd::std_specs::cmp::PartialEqSpecImpl for GoldilocksField {
    open spec fn obeys_eq_spec() -> bool {
        true
    }

    open spec fn eq_spec(&self, other: &GoldilocksField) -> bool {
        self@ == other@
    }
}

impl Eq for GoldilocksField {

}

} // verus!
