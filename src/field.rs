//! Elements of the BN254 base field, held as four little-endian 64-bit limbs
//! of their canonical integer, with arithmetic carried out by `ark_bn254`.

use vstd::prelude::*;
use vstd::arithmetic::div_mod::{lemma_fundamental_div_mod_converse, lemma_small_mod};
use vstd::arithmetic::power::pow;
use ark_bn254::Fq;
use ark_ff::{BigInt, BigInteger, Field, PrimeField};

verus! {

/// The radix of the limbs.
pub open spec fn limb_base() -> int {
    0x1_0000_0000_0000_0000
}

/// The order of the field,
/// 21888242871839275222246405745257275088696311157297823662689037894645226208583.
pub open spec fn modulus() -> int {
    0x3c20_8c16_d87c_fd47 + limb_base() * (0x9781_6a91_6871_ca8d + limb_base() * (
    0xb850_45b6_8181_585d + limb_base() * 0x3064_4e72_e131_a029))
}

pub open spec fn fadd(a: int, b: int) -> int {
    (a + b) % modulus()
}

pub open spec fn fsub(a: int, b: int) -> int {
    (a - b) % modulus()
}

pub open spec fn fmul(a: int, b: int) -> int {
    (a * b) % modulus()
}

/// The `n` bytes of `v` in little-endian order.
pub open spec fn le_encode(v: int, n: nat) -> Seq<u8> {
    Seq::new(n, |i: int| ((v / pow(256, i as nat)) % 256) as u8)
}

/// The integer that a little-endian byte string stands for.
pub open spec fn le_value(b: Seq<u8>) -> int
    decreases b.len(),
{
    if b.len() == 0 {
        0
    } else {
        b[0] as int + 256 * le_value(b.drop_first())
    }
}

/// The values of a sequence of field elements.
pub open spec fn vals(s: Seq<FieldElement>) -> Seq<int> {
    s.map_values(|x: FieldElement| x@)
}

/// A field element. Its limbs always hold the canonical integer, below the modulus.
#[derive(Clone, Copy, Debug, PartialEq, Eq, Structural)]
pub struct FieldElement {
    l0: u64,
    l1: u64,
    l2: u64,
    l3: u64,
}

impl FieldElement {
    /// The integer held by the limbs.
    pub closed spec fn raw(self) -> int {
        self.l0 as int + limb_base() * (self.l1 as int + limb_base() * (self.l2 as int
            + limb_base() * self.l3 as int))
    }

    #[verifier::type_invariant]
    spec fn canonical(self) -> bool {
        self.raw() < modulus()
    }
}

impl View for FieldElement {
    type V = int;

    open spec fn view(&self) -> int {
        self.raw() % modulus()
    }
}

proof fn lemma_digit_unique(a0: int, a1: int, b0: int, b1: int)
    requires
        0 <= a0 < limb_base(),
        0 <= b0 < limb_base(),
        a0 + limb_base() * a1 == b0 + limb_base() * b1,
    ensures
        a0 == b0,
        a1 == b1,
{
    let x = a0 + limb_base() * a1;
    lemma_fundamental_div_mod_converse(x, limb_base(), a1, a0);
    lemma_fundamental_div_mod_converse(x, limb_base(), b1, b0);
}

impl FieldElement {
    proof fn lemma_view(self)
        requires
            self.raw() < modulus(),
        ensures
            self@ == self.raw(),
    {
        assert(self.raw() >= 0) by (nonlinear_arith)
            requires
                self.l0 >= 0,
                self.l1 >= 0,
                self.l2 >= 0,
                self.l3 >= 0,
                limb_base() > 0,
                self.raw() == self.l0 as int + limb_base() * (self.l1 as int + limb_base() * (
                self.l2 as int + limb_base() * self.l3 as int)),
        ;
        lemma_small_mod(self.raw() as nat, modulus() as nat);
    }

    proof fn lemma_limbs_unique(self, other: Self)
        requires
            self.raw() == other.raw(),
        ensures
            self == other,
    {
        let (a1, a2) = (self.l2 as int + limb_base() * self.l3 as int, other.l2 as int
            + limb_base() * other.l3 as int);
        lemma_digit_unique(
            self.l0 as int,
            self.l1 as int + limb_base() * a1,
            other.l0 as int,
            other.l1 as int + limb_base() * a2,
        );
        lemma_digit_unique(self.l1 as int, a1, other.l1 as int, a2);
        lemma_digit_unique(self.l2 as int, self.l3 as int, other.l2 as int, other.l3 as int);
    }

    /// The element `v`.
    pub fn from_u64(v: u64) -> (r: Self)
        ensures
            r@ == v as int,
    {
        let r = FieldElement { l0: v, l1: 0, l2: 0, l3: 0 };
        proof {
            r.lemma_view();
        }
        r
    }

    /// A copy of a vector of elements.
    pub fn copy_all(v: &[FieldElement]) -> (r: Vec<FieldElement>)
        ensures
            r@ == v@,
    {
        let mut r: Vec<FieldElement> = Vec::new();
        let mut i: usize = 0;
        while i < v.len()
            invariant
                i <= v@.len(),
                r@ == v@.subrange(0, i as int),
            decreases v@.len() - i,
        {
            r.push(v[i]);
            i = i + 1;
        }
        assert(r@ =~= v@);
        r
    }

    pub fn zero() -> (r: Self)
        ensures
            r@ == 0,
    {
        Self::from_u64(0)
    }

    pub fn one() -> (r: Self)
        ensures
            r@ == 1,
    {
        Self::from_u64(1)
    }

    /// Whether two elements are the same element of the field.
    pub fn equals(&self, other: &Self) -> (r: bool)
        ensures
            r == (self@ == other@),
    {
        proof {
            use_type_invariant(self);
            use_type_invariant(other);
            self.lemma_view();
            other.lemma_view();
            if self@ == other@ {
                self.lemma_limbs_unique(*other);
            }
        }
        self.l0 == other.l0 && self.l1 == other.l1 && self.l2 == other.l2 && self.l3 == other.l3
    }
}

/// Relies on the addition of `ark_bn254::Fq`, modulo the field's order.
#[verifier::external_body]
fn fq_add(a: &FieldElement, b: &FieldElement) -> (r: FieldElement)
    ensures
        r@ == fadd(a@, b@),
{
    let x = Fq::from_bigint(BigInt::new([a.l0, a.l1, a.l2, a.l3])).unwrap();
    let y = Fq::from_bigint(BigInt::new([b.l0, b.l1, b.l2, b.l3])).unwrap();
    let c = (x + y).into_bigint().0;
    FieldElement { l0: c[0], l1: c[1], l2: c[2], l3: c[3] }
}

/// Relies on the subtraction of `ark_bn254::Fq`, modulo the field's order.
#[verifier::external_body]
fn fq_sub(a: &FieldElement, b: &FieldElement) -> (r: FieldElement)
    ensures
        r@ == fsub(a@, b@),
{
    let x = Fq::from_bigint(BigInt::new([a.l0, a.l1, a.l2, a.l3])).unwrap();
    let y = Fq::from_bigint(BigInt::new([b.l0, b.l1, b.l2, b.l3])).unwrap();
    let c = (x - y).into_bigint().0;
    FieldElement { l0: c[0], l1: c[1], l2: c[2], l3: c[3] }
}

/// Relies on the multiplication of `ark_bn254::Fq`, modulo the field's order.
#[verifier::external_body]
fn fq_mul(a: &FieldElement, b: &FieldElement) -> (r: FieldElement)
    ensures
        r@ == fmul(a@, b@),
{
    let x = Fq::from_bigint(BigInt::new([a.l0, a.l1, a.l2, a.l3])).unwrap();
    let y = Fq::from_bigint(BigInt::new([b.l0, b.l1, b.l2, b.l3])).unwrap();
    let c = (x * y).into_bigint().0;
    FieldElement { l0: c[0], l1: c[1], l2: c[2], l3: c[3] }
}

/// Relies on `Field::inverse` of `ark_bn254::Fq`: `None` exactly for zero, else the
/// element whose product with the argument is one.
#[verifier::external_body]
fn fq_inverse(a: &FieldElement) -> (r: Option<FieldElement>)
    ensures
        r is None <==> a@ == 0,
        r is Some ==> fmul(r->0@, a@) == 1,
{
    let x = Fq::from_bigint(BigInt::new([a.l0, a.l1, a.l2, a.l3])).unwrap();
    match x.inverse() {
        Some(i) => {
            let c = i.into_bigint().0;
            Some(FieldElement { l0: c[0], l1: c[1], l2: c[2], l3: c[3] })
        },
        None => None,
    }
}

/// Relies on `PrimeField::from_le_bytes_mod_order` of `ark_bn254::Fq`: the little-endian
/// integer of the bytes, reduced modulo the field's order.
#[verifier::external_body]
fn fq_from_le_bytes_mod_order(bytes: &[u8]) -> (r: FieldElement)
    ensures
        r@ == le_value(bytes@) % modulus(),
{
    let c = Fq::from_le_bytes_mod_order(bytes).into_bigint().0;
    FieldElement { l0: c[0], l1: c[1], l2: c[2], l3: c[3] }
}

/// Relies on `BigInteger::to_bytes_le` of ark_ff's `BigInt<4>`: the eight little-endian
/// bytes of each limb, lowest limb first.
#[verifier::external_body]
fn bigint_to_bytes_le(a: &FieldElement) -> (r: Vec<u8>)
    ensures
        r@ == le_encode(a@, 32),
{
    BigInt::new([a.l0, a.l1, a.l2, a.l3]).to_bytes_le()
}

impl FieldElement {
    pub fn add(&self, other: &Self) -> (r: Self)
        ensures
            r@ == fadd(self@, other@),
    {
        fq_add(self, other)
    }

    pub fn sub(&self, other: &Self) -> (r: Self)
        ensures
            r@ == fsub(self@, other@),
    {
        fq_sub(self, other)
    }

    pub fn mul(&self, other: &Self) -> (r: Self)
        ensures
            r@ == fmul(self@, other@),
    {
        fq_mul(self, other)
    }

    pub fn neg(&self) -> (r: Self)
        ensures
            r@ == fsub(0, self@),
    {
        fq_sub(&Self::zero(), self)
    }

    /// The multiplicative inverse, `None` for zero.
    pub fn inverse(&self) -> (r: Option<Self>)
        ensures
            r is None <==> self@ == 0,
            r is Some ==> fmul(r->0@, self@) == 1,
    {
        fq_inverse(self)
    }

    /// The little-endian integer of `bytes`, reduced modulo the field's order.
    pub fn from_le_bytes_mod_order(bytes: &[u8]) -> (r: Self)
        ensures
            r@ == le_value(bytes@) % modulus(),
    {
        fq_from_le_bytes_mod_order(bytes)
    }

    /// The canonical 32-byte little-endian encoding.
    pub fn to_bytes_le(&self) -> (r: Vec<u8>)
        ensures
            r@ == le_encode(self@, 32),
    {
        bigint_to_bytes_le(self)
    }
}

/// Adding the same element to two different elements gives different sums.
pub proof fn lemma_add_cancel(a: int, b: int, c: int)
    requires
        0 <= a < modulus(),
        0 <= b < modulus(),
        fadd(a, c) == fadd(b, c) || fadd(c, a) == fadd(c, b),
    ensures
        a == b,
{
    let m = modulus();
    vstd::arithmetic::div_mod::lemma_fundamental_div_mod(a + c, m);
    vstd::arithmetic::div_mod::lemma_fundamental_div_mod(b + c, m);
    let (qa, qb) = ((a + c) / m, (b + c) / m);
    assert(a - b == m * (qa - qb)) by (nonlinear_arith)
        requires
            a + c == m * qa + (a + c) % m,
            b + c == m * qb + (b + c) % m,
            (a + c) % m == (b + c) % m,
    ;
    if qa > qb {
        assert(m * (qa - qb) >= m) by (nonlinear_arith)
            requires
                qa - qb >= 1,
                m > 0,
        ;
    } else if qa < qb {
        assert(m * (qa - qb) <= -m) by (nonlinear_arith)
            requires
                qa - qb <= -1,
                m > 0,
        ;
    }
}

} // verus!
