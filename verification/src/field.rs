//! Prime-field scalars: residues modulo the Mersenne prime `2^61 - 1`.
//!
//! A `FieldElement` is a canonical residue held in a `u64`. All operations
//! are specified against the mathematical residue arithmetic (`fadd`, `fsub`,
//! `fmul`, ...) over `int`.

use vstd::prelude::*;

verus! {

/// The field modulus: the Mersenne prime `2^61 - 1`.
pub const MODULUS: u64 = 2305843009213693951;

/// Residue addition on canonical representatives.
pub open spec fn fadd(a: int, b: int) -> int {
    (a + b) % (MODULUS as int)
}

/// Residue subtraction on canonical representatives.
pub open spec fn fsub(a: int, b: int) -> int {
    (a - b) % (MODULUS as int)
}

/// Residue multiplication on canonical representatives.
pub open spec fn fmul(a: int, b: int) -> int {
    (a * b) % (MODULUS as int)
}

/// Residue negation on canonical representatives.
pub open spec fn fneg(a: int) -> int {
    (0 - a) % (MODULUS as int)
}

/// Whether an integer is a canonical residue.
pub open spec fn in_field(a: int) -> bool {
    0 <= a < MODULUS as int
}

/// Residue exponentiation on canonical representatives.
pub open spec fn fpow(a: int, e: nat) -> int {
    vstd::arithmetic::power::pow(a, e) % (MODULUS as int)
}

/// The multiplicative inverse of a non-zero residue, by Fermat's little
/// theorem; zero maps to zero.
pub open spec fn finv(a: int) -> int {
    fpow(a, (MODULUS - 2) as nat)
}

/// The views of a sequence of field elements.
pub open spec fn fe_views(s: Seq<FieldElement>) -> Seq<int> {
    s.map(|i: int, e: FieldElement| e@)
}

/// The residue sum of a sequence of residues.
pub open spec fn fsum(s: Seq<int>) -> int
    decreases s.len(),
{
    if s.len() == 0 {
        0
    } else {
        fadd(fsum(s.drop_last()), s.last())
    }
}

/// The fixed 8-byte big-endian encoding of a canonical residue.
pub open spec fn be_bytes8(x: int) -> Seq<u8> {
    Seq::new(8, |k: int| ((x / vstd::arithmetic::power2::pow2((8 * (7 - k)) as nat) as int) % 256) as u8)
}

/// Big-endian interpretation of an arbitrary byte string, reduced mod `MODULUS`.
pub open spec fn be_bytes_mod(s: Seq<u8>) -> int
    decreases s.len(),
{
    if s.len() == 0 {
        0
    } else {
        (be_bytes_mod(s.drop_last()) * 256 + s.last()) % (MODULUS as int)
    }
}

/// The concatenated big-endian encodings of a sequence of residues.
pub open spec fn fe_seq_bytes(s: Seq<int>) -> Seq<u8>
    decreases s.len(),
{
    if s.len() == 0 {
        Seq::empty()
    } else {
        fe_seq_bytes(s.drop_last()) + be_bytes8(s.last())
    }
}

/// One digit step of the byte reconstruction: dividing by the next power
/// splits off the byte at the current power.
proof fn lemma_byte_step(x: int, j: nat)
    requires
        0 <= x,
    ensures
        x / vstd::arithmetic::power2::pow2(8 * j) as int
            == 256 * (x / vstd::arithmetic::power2::pow2(8 * (j + 1)) as int)
                + (x / vstd::arithmetic::power2::pow2(8 * j) as int) % 256,
{
    let a = vstd::arithmetic::power2::pow2(8 * j) as int;
    let b = vstd::arithmetic::power2::pow2(8 * (j + 1)) as int;
    vstd::arithmetic::power2::lemma_pow2_pos(8 * j);
    vstd::arithmetic::power2::lemma_pow2_pos(8 * (j + 1));
    vstd::arithmetic::power2::lemma_pow2_adds(8 * j, 8);
    vstd::arithmetic::power2::lemma2_to64();
    vstd::arithmetic::div_mod::lemma_div_denominator(x, a, 256);
    vstd::arithmetic::div_mod::lemma_fundamental_div_mod(x / a, 256);
}

/// The fixed-length encoding is injective on canonical residues: two
/// canonical residues with the same eight bytes are equal.
pub proof fn lemma_be_bytes8_injective(x: int, y: int)
    requires
        in_field(x),
        in_field(y),
        be_bytes8(x) == be_bytes8(y),
    ensures
        x == y,
{
    vstd::arithmetic::power2::lemma2_to64();
    vstd::arithmetic::power2::lemma2_to64_rest();
    // The bytes pin the quotients x / 2^(8j) for j = 8 down to 0. Both
    // eighth quotients are zero; equal bytes force every lower quotient,
    // and finally the values themselves, to agree.
    assert(x / vstd::arithmetic::power2::pow2(64) as int == 0) by {
        vstd::arithmetic::div_mod::lemma_basic_div(
            x, vstd::arithmetic::power2::pow2(64) as int);
    }
    assert(y / vstd::arithmetic::power2::pow2(64) as int == 0) by {
        vstd::arithmetic::div_mod::lemma_basic_div(
            y, vstd::arithmetic::power2::pow2(64) as int);
    }
    lemma_byte_quotient_eq(x, y, 7);
    lemma_byte_quotient_eq(x, y, 6);
    lemma_byte_quotient_eq(x, y, 5);
    lemma_byte_quotient_eq(x, y, 4);
    lemma_byte_quotient_eq(x, y, 3);
    lemma_byte_quotient_eq(x, y, 2);
    lemma_byte_quotient_eq(x, y, 1);
    lemma_byte_quotient_eq(x, y, 0);
    vstd::arithmetic::div_mod::lemma_div_basics(x);
    vstd::arithmetic::div_mod::lemma_div_basics(y);
}

/// One step of the reconstruction: if the quotients by the next power
/// agree and the encodings agree, the quotients by this power agree.
proof fn lemma_byte_quotient_eq(x: int, y: int, j: nat)
    requires
        0 <= x,
        0 <= y,
        j < 8,
        be_bytes8(x) == be_bytes8(y),
        x / vstd::arithmetic::power2::pow2(8 * (j + 1)) as int
            == y / vstd::arithmetic::power2::pow2(8 * (j + 1)) as int,
    ensures
        x / vstd::arithmetic::power2::pow2(8 * j) as int
            == y / vstd::arithmetic::power2::pow2(8 * j) as int,
{
    let k = 7 - j as int;
    let px = (x / vstd::arithmetic::power2::pow2(8 * j) as int) % 256;
    let py = (y / vstd::arithmetic::power2::pow2(8 * j) as int) % 256;
    assert(be_bytes8(x)[k] == be_bytes8(y)[k]);
    assert((8 * (7 - k)) as nat == 8 * j);
    assert(be_bytes8(x)[k] == px as u8);
    assert(be_bytes8(y)[k] == py as u8);
    vstd::arithmetic::power2::lemma_pow2_pos(8 * j);
    vstd::arithmetic::div_mod::lemma_mod_bound(
        x / vstd::arithmetic::power2::pow2(8 * j) as int, 256);
    vstd::arithmetic::div_mod::lemma_mod_bound(
        y / vstd::arithmetic::power2::pow2(8 * j) as int, 256);
    assert(px as u8 as int == px);
    assert(py as u8 as int == py);
    assert(px == py);
    lemma_byte_step(x, j);
    lemma_byte_step(y, j);
}

/// A serialized sequence takes eight bytes per element.
pub proof fn lemma_fe_seq_bytes_len(s: Seq<int>)
    ensures
        fe_seq_bytes(s).len() == 8 * s.len(),
    decreases s.len(),
{
    if s.len() > 0 {
        lemma_fe_seq_bytes_len(s.drop_last());
    }
}

/// Serialization is injective on canonical sequences of equal length: equal
/// byte strings force equal sequences.
pub proof fn lemma_fe_seq_bytes_injective(a: Seq<int>, b: Seq<int>)
    requires
        a.len() == b.len(),
        forall|i: int| 0 <= i < a.len() ==> in_field(#[trigger] a[i]),
        forall|i: int| 0 <= i < b.len() ==> in_field(#[trigger] b[i]),
        fe_seq_bytes(a) == fe_seq_bytes(b),
    ensures
        a == b,
    decreases a.len(),
{
    if a.len() == 0 {
        assert(a =~= b);
    } else {
        let n = a.len() as int;
        lemma_fe_seq_bytes_len(a.drop_last());
        lemma_fe_seq_bytes_len(b.drop_last());
        // Split the shared byte string into the common prefix and the last
        // element's eight bytes.
        assert(fe_seq_bytes(a.drop_last())
            =~= fe_seq_bytes(a).take(8 * (n - 1)));
        assert(fe_seq_bytes(b.drop_last())
            =~= fe_seq_bytes(b).take(8 * (n - 1)));
        assert(be_bytes8(a.last()) =~= fe_seq_bytes(a).skip(8 * (n - 1)));
        assert(be_bytes8(b.last()) =~= fe_seq_bytes(b).skip(8 * (n - 1)));
        lemma_fe_seq_bytes_injective(a.drop_last(), b.drop_last());
        lemma_be_bytes8_injective(a.last(), b.last());
        assert forall|i: int| 0 <= i < n implies a[i] == b[i] by {
            if i < n - 1 {
                assert(a.drop_last()[i] == b.drop_last()[i]);
            }
        }
        assert(a =~= b);
    }
}

/// Congruent summands give congruent sums.
pub proof fn lemma_add_congruence(a: int, b: int, c: int, d: int)
    requires
        a % (MODULUS as int) == b % (MODULUS as int),
        c % (MODULUS as int) == d % (MODULUS as int),
    ensures
        (a + c) % (MODULUS as int) == (b + d) % (MODULUS as int),
{
    let m = MODULUS as int;
    vstd::arithmetic::div_mod::lemma_add_mod_noop(a, c, m);
    vstd::arithmetic::div_mod::lemma_add_mod_noop(b, d, m);
}

/// Congruent operands give congruent differences.
pub proof fn lemma_sub_congruence(a: int, b: int, c: int, d: int)
    requires
        a % (MODULUS as int) == b % (MODULUS as int),
        c % (MODULUS as int) == d % (MODULUS as int),
    ensures
        (a - c) % (MODULUS as int) == (b - d) % (MODULUS as int),
{
    let m = MODULUS as int;
    vstd::arithmetic::div_mod::lemma_sub_mod_noop(a, c, m);
    vstd::arithmetic::div_mod::lemma_sub_mod_noop(b, d, m);
}

/// Congruent factors give congruent products.
pub proof fn lemma_mul_congruence(a: int, b: int, c: int, d: int)
    requires
        a % (MODULUS as int) == b % (MODULUS as int),
        c % (MODULUS as int) == d % (MODULUS as int),
    ensures
        (a * c) % (MODULUS as int) == (b * d) % (MODULUS as int),
{
    let m = MODULUS as int;
    vstd::arithmetic::div_mod::lemma_mul_mod_noop_general(a, c, m);
    vstd::arithmetic::div_mod::lemma_mul_mod_noop_general(b, d, m);
}

/// Reducing twice is the same as reducing once.
pub proof fn lemma_mod_idempotent(a: int)
    ensures
        (a % (MODULUS as int)) % (MODULUS as int) == a % (MODULUS as int),
{
    vstd::arithmetic::div_mod::lemma_mod_twice(a, MODULUS as int);
}

/// A canonical residue reduces to itself.
pub proof fn lemma_mod_small(a: int)
    requires
        in_field(a),
    ensures
        a % (MODULUS as int) == a,
{
    vstd::arithmetic::div_mod::lemma_small_mod(a as nat, MODULUS as nat);
}

/// An element of the prime field of order `MODULUS`.
#[derive(Clone, Copy, Debug, PartialEq, Eq, Hash, Structural)]
pub struct FieldElement {
    value: u64,
}

impl View for FieldElement {
    type V = int;

    closed spec fn view(&self) -> int {
        self.value as int
    }
}

impl FieldElement {
    /// Every field element holds a canonical residue.
    #[verifier::type_invariant]
    pub closed spec fn wf(self) -> bool {
        self.value < MODULUS
    }

    /// Two elements are equal exactly when their residues are equal.
    pub proof fn lemma_view_injective(a: FieldElement, b: FieldElement)
        ensures
            (a == b) <==> (a@ == b@),
    {
    }

    /// A constructed element is canonical.
    pub proof fn lemma_wf_canonical(self)
        requires
            self.wf(),
        ensures
            in_field(self@),
    {
    }

    /// The residue class of `x`.
    pub fn from_u64(x: u64) -> (r: FieldElement)
        ensures
            r@ == x as int % MODULUS as int,
    {
        FieldElement { value: x % MODULUS }
    }

    /// The additive identity.
    pub fn zero() -> (r: FieldElement)
        ensures
            r@ == 0,
    {
        FieldElement { value: 0 }
    }

    /// The multiplicative identity.
    pub fn one() -> (r: FieldElement)
        ensures
            r@ == 1,
    {
        FieldElement { value: 1 }
    }

    /// Field addition.
    pub fn add(self, other: FieldElement) -> (r: FieldElement)
        ensures
            r@ == fadd(self@, other@),
    {
        proof {
            use_type_invariant(self);
            use_type_invariant(other);
        }
        let s = self.value + other.value;
        let v = if s >= MODULUS { s - MODULUS } else { s };
        proof {
            vstd::arithmetic::div_mod::lemma_small_mod(v as nat, MODULUS as nat);
            if s >= MODULUS {
                vstd::arithmetic::div_mod::lemma_mod_sub_multiples_vanish(s as int, MODULUS as int);
            }
        }
        FieldElement { value: v }
    }

    /// Field subtraction.
    pub fn sub(self, other: FieldElement) -> (r: FieldElement)
        ensures
            r@ == fsub(self@, other@),
    {
        proof {
            use_type_invariant(self);
            use_type_invariant(other);
        }
        let s = self.value + MODULUS - other.value;
        let v = if s >= MODULUS { s - MODULUS } else { s };
        proof {
            vstd::arithmetic::div_mod::lemma_small_mod(v as nat, MODULUS as nat);
            if s >= MODULUS {
                vstd::arithmetic::div_mod::lemma_mod_sub_multiples_vanish(s as int, MODULUS as int);
            }
            assert(v as int == (self@ - other@ + MODULUS as int) % MODULUS as int);
            vstd::arithmetic::div_mod::lemma_mod_add_multiples_vanish(self@ - other@, MODULUS as int);
        }
        FieldElement { value: v }
    }

    /// Field negation.
    pub fn neg(self) -> (r: FieldElement)
        ensures
            r@ == fneg(self@),
    {
        FieldElement::zero().sub(self)
    }

    /// Field multiplication.
    pub fn mul(self, other: FieldElement) -> (r: FieldElement)
        ensures
            r@ == fmul(self@, other@),
    {
        proof {
            use_type_invariant(self);
            use_type_invariant(other);
            assert((self.value as int) * (other.value as int)
                <= (MODULUS as int - 1) * (MODULUS as int - 1)) by (nonlinear_arith)
                requires self.value < MODULUS, other.value < MODULUS;
        }
        let wide = (self.value as u128) * (other.value as u128);
        let v = (wide % (MODULUS as u128)) as u64;
        proof {
            vstd::arithmetic::div_mod::lemma_mod_bound(wide as int, MODULUS as int);
        }
        FieldElement { value: v }
    }

    /// Field exponentiation by square-and-multiply.
    pub fn pow(self, exponent: u64) -> (r: FieldElement)
        ensures
            r@ == fpow(self@, exponent as nat),
    {
        let ghost a0 = self@;
        let ghost e0 = exponent as nat;
        let mut acc = FieldElement::one();
        let mut base = self;
        let mut e = exponent;
        proof {
            vstd::arithmetic::power::lemma_pow0(base@);
            vstd::arithmetic::power::lemma_pow1(base@);
        }
        while e > 0
            invariant
                (acc@ * vstd::arithmetic::power::pow(base@, e as nat)) % (MODULUS as int)
                    == fpow(a0, e0),
            decreases e,
        {
            let ghost aa = acc@;
            let ghost bb = base@;
            let ghost ee = e as nat;
            if e % 2 == 1 {
                acc = acc.mul(base);
            }
            base = base.mul(base);
            e = e / 2;
            proof {
                let k = e as nat;
                // pow(base', k) is congruent to pow(bb, 2k).
                vstd::arithmetic::power::lemma_square_is_pow2(bb);
                vstd::arithmetic::power::lemma_pow_multiplies(bb, 2, k);
                vstd::arithmetic::power::lemma_pow_mod_noop(bb * bb, k, MODULUS as int);
                assert(vstd::arithmetic::power::pow(base@, k) % (MODULUS as int)
                    == vstd::arithmetic::power::pow(bb, (2 * k) as nat) % (MODULUS as int));
                if ee == 2 * k + 1 {
                    vstd::arithmetic::power::lemma_pow_adds(bb, (2 * k) as nat, 1);
                    vstd::arithmetic::power::lemma_pow1(bb);
                    // acc' = (aa * bb) % m, so acc' * pow(base', k) is congruent
                    // to aa * pow(bb, 2k + 1).
                    lemma_mod_idempotent(aa * bb);
                    lemma_mul_congruence(
                        acc@,
                        aa * bb,
                        vstd::arithmetic::power::pow(base@, k),
                        vstd::arithmetic::power::pow(bb, (2 * k) as nat),
                    );
                    assert(aa * bb * vstd::arithmetic::power::pow(bb, (2 * k) as nat)
                        == aa * vstd::arithmetic::power::pow(bb, ee)) by (nonlinear_arith)
                        requires vstd::arithmetic::power::pow(bb, ee)
                            == vstd::arithmetic::power::pow(bb, (2 * k) as nat) * bb;
                } else {
                    assert(ee == 2 * k);
                    lemma_mod_idempotent(acc@);
                    lemma_mul_congruence(
                        acc@,
                        aa,
                        vstd::arithmetic::power::pow(base@, k),
                        vstd::arithmetic::power::pow(bb, (2 * k) as nat),
                    );
                }
            }
        }
        proof {
            use_type_invariant(acc);
            vstd::arithmetic::power::lemma_pow0(base@);
            lemma_mod_small(acc@);
        }
        acc
    }

    /// The multiplicative inverse of a non-zero element, by Fermat's little
    /// theorem; zero maps to zero.
    pub fn inv(self) -> (r: FieldElement)
        ensures
            r@ == finv(self@),
    {
        self.pow(MODULUS - 2)
    }

    /// The fixed-length big-endian byte encoding of this element.
    pub fn to_be_bytes(self) -> (r: Vec<u8>)
        ensures
            r@ == be_bytes8(self@),
    {
        let v = self.value;
        let mut out: Vec<u8> = Vec::new();
        out.push((v / 72057594037927936 % 256) as u8);
        out.push((v / 281474976710656 % 256) as u8);
        out.push((v / 1099511627776 % 256) as u8);
        out.push((v / 4294967296 % 256) as u8);
        out.push((v / 16777216 % 256) as u8);
        out.push((v / 65536 % 256) as u8);
        out.push((v / 256 % 256) as u8);
        out.push((v % 256) as u8);
        proof {
            vstd::arithmetic::power2::lemma2_to64();
            vstd::arithmetic::power2::lemma2_to64_rest();
            vstd::arithmetic::div_mod::lemma_div_basics(self@);
            assert(out@[0] == be_bytes8(self@)[0]);
            assert(out@[1] == be_bytes8(self@)[1]);
            assert(out@[2] == be_bytes8(self@)[2]);
            assert(out@[3] == be_bytes8(self@)[3]);
            assert(out@[4] == be_bytes8(self@)[4]);
            assert(out@[5] == be_bytes8(self@)[5]);
            assert(out@[6] == be_bytes8(self@)[6]);
            assert(out@[7] == be_bytes8(self@)[7]);
            assert(out@ =~= be_bytes8(self@));
        }
        out
    }

    /// The residue class of a big-endian byte string of any length.
    pub fn from_be_bytes_mod_order(bytes: &[u8]) -> (r: FieldElement)
        ensures
            r@ == be_bytes_mod(bytes@),
    {
        let mut acc: u64 = 0;
        let mut i: usize = 0;
        while i < bytes.len()
            invariant
                i <= bytes@.len(),
                acc < MODULUS,
                acc as int == be_bytes_mod(bytes@.take(i as int)),
            decreases bytes@.len() - i,
        {
            let b = bytes[i];
            let wide = (acc as u128) * 256 + (b as u128);
            acc = (wide % (MODULUS as u128)) as u64;
            i = i + 1;
            proof {
                vstd::arithmetic::div_mod::lemma_mod_bound(wide as int, MODULUS as int);
                assert(bytes@.take(i as int).drop_last() =~= bytes@.take(i as int - 1));
            }
        }
        proof {
            assert(bytes@.take(bytes@.len() as int) =~= bytes@);
        }
        FieldElement { value: acc }
    }

    /// The canonical representative as an integer.
    pub fn to_u64(self) -> (r: u64)
        ensures
            r as int == self@,
    {
        self.value
    }

    /// Whether this element is zero.
    pub fn is_zero(self) -> (r: bool)
        ensures
            r == (self@ == 0),
    {
        self.value == 0
    }

    /// Whether this element is one.
    pub fn is_one(self) -> (r: bool)
        ensures
            r == (self@ == 1),
    {
        self.value == 1
    }
}

} // verus!
