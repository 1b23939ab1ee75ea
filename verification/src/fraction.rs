//! Exact rational scalars.
//!
//! A [`Fraction`] stores its numerator and denominator as little-endian
//! two's-complement bytes and is viewed as the real number they denote.
//! The arithmetic itself is delegated to `rithm`.

use crate::comparison::Comparison;
use rithm::big_int::BigInt;
use traiter::numbers::Endianness::Little;
use traiter::numbers::{FromBytes, Signed, ToBytes};
use vstd::prelude::*;
use vstd::std_specs::cmp::PartialEqSpecImpl;

verus! {

type Integer = BigInt<u32, 31>;

type Exact = rithm::fraction::Fraction<Integer>;

/// Sign of a scalar.
#[derive(Clone, Copy, Debug, PartialEq, Eq, Structural)]
pub enum Sign {
    Negative,
    Zero,
    Positive,
}

/// The integer denoted by little-endian two's-complement bytes.
pub open spec fn bytes_to_int(bytes: Seq<u8>) -> int
    decreases bytes.len(),
{
    if bytes.len() == 0 {
        0
    } else if bytes.len() == 1 {
        if bytes[0] >= 128 {
            bytes[0] - 256
        } else {
            bytes[0] as int
        }
    } else {
        bytes[0] + 256 * bytes_to_int(bytes.skip(1))
    }
}

/// Whether the most significant byte only repeats the sign of the one below.
pub open spec fn has_redundant_top(bytes: Seq<u8>) -> bool {
    bytes.len() >= 2 && ({
        let top = bytes[bytes.len() - 1];
        let below = bytes[bytes.len() - 2];
        (top == 0 && below < 128) || (top == 255 && below >= 128)
    })
}

/// Shortest encoding: non-empty, with no redundant most significant byte.
pub open spec fn is_minimal(bytes: Seq<u8>) -> bool {
    bytes.len() >= 1 && !has_redundant_top(bytes)
}

/// The shortest encoding of the integer that `bytes` denotes.
pub open spec fn trimmed(bytes: Seq<u8>) -> Seq<u8>
    decreases bytes.len(),
{
    if has_redundant_top(bytes) {
        trimmed(bytes.drop_last())
    } else {
        bytes
    }
}

/// The pair is in lowest terms: the denominator is positive and no
/// integer greater than one divides both.
pub open spec fn is_in_lowest_terms(numerator: int, denominator: int) -> bool {
    &&& denominator > 0
    &&& forall|divisor: int|
        divisor > 1 ==> !(#[trigger] (numerator % divisor) == 0 && denominator % divisor == 0)
}

/// Three-way comparison of real numbers.
pub open spec fn reals_comparison(first: real, second: real) -> Comparison {
    if first < second {
        Comparison::Less
    } else if first > second {
        Comparison::Greater
    } else {
        Comparison::Equal
    }
}

/// The sign of a real number.
pub open spec fn sign_of(value: real) -> Sign {
    if value < 0real {
        Sign::Negative
    } else if value > 0real {
        Sign::Positive
    } else {
        Sign::Zero
    }
}

/// Dropping a redundant most significant byte keeps the value.
pub proof fn lemma_drop_redundant_top(bytes: Seq<u8>)
    requires
        has_redundant_top(bytes),
    ensures
        bytes_to_int(bytes.drop_last()) == bytes_to_int(bytes),
    decreases bytes.len(),
{
    let rest = bytes.skip(1);
    let front = bytes.drop_last();
    assert(bytes_to_int(bytes) == bytes[0] + 256 * bytes_to_int(rest));
    assert(front[0] == bytes[0]);
    if bytes.len() == 2 {
        assert(rest.len() == 1 && rest[0] == bytes[1]);
        assert(bytes_to_int(rest) == if bytes[1] >= 128 {
            bytes[1] - 256
        } else {
            bytes[1] as int
        });
        assert(front.len() == 1);
    } else {
        assert(rest[rest.len() - 1] == bytes[bytes.len() - 1]);
        assert(rest[rest.len() - 2] == bytes[bytes.len() - 2]);
        lemma_drop_redundant_top(rest);
        assert(front.skip(1) =~= rest.drop_last());
        assert(bytes_to_int(front) == front[0] + 256 * bytes_to_int(front.skip(1)));
    }
}

/// Trimming keeps the value and yields the shortest encoding.
pub proof fn lemma_trimmed(bytes: Seq<u8>)
    requires
        bytes.len() >= 1,
    ensures
        is_minimal(trimmed(bytes)),
        bytes_to_int(trimmed(bytes)) == bytes_to_int(bytes),
    decreases bytes.len(),
{
    if has_redundant_top(bytes) {
        lemma_drop_redundant_top(bytes);
        lemma_trimmed(bytes.drop_last());
    }
}

/// Only sequences of zero bytes denote zero.
pub proof fn lemma_zero_bytes(bytes: Seq<u8>)
    ensures
        bytes_to_int(bytes) == 0 <==> (forall|i: int| 0 <= i < bytes.len() ==> bytes[i] == 0),
    decreases bytes.len(),
{
    if bytes.len() >= 2 {
        let rest = bytes.skip(1);
        lemma_zero_bytes(rest);
        if bytes_to_int(bytes) == 0 {
            assert(bytes[0] == 0 && bytes_to_int(rest) == 0);
            assert forall|i: int| 0 <= i < bytes.len() implies bytes[i] == 0 by {
                if i > 0 {
                    assert(rest[i - 1] == bytes[i]);
                }
            }
        }
        if forall|i: int| 0 <= i < bytes.len() ==> bytes[i] == 0 {
            assert forall|i: int| 0 <= i < rest.len() implies rest[i] == 0 by {
                assert(rest[i] == bytes[i + 1]);
            }
        }
    }
}

/// Drops redundant most significant bytes.
pub fn trim(bytes: Vec<u8>) -> (result: Vec<u8>)
    ensures
        result@ == trimmed(bytes@),
{
    let mut result = bytes;
    while result.len() >= 2 && ((result[result.len() - 1] == 0 && result[result.len() - 2] < 128)
        || (result[result.len() - 1] == 255 && result[result.len() - 2] >= 128))
        invariant
            trimmed(result@) == trimmed(bytes@),
        decreases result.len(),
    {
        result.pop();
    }
    result
}

/// Whether every byte is zero.
pub fn is_zero_bytes(bytes: &Vec<u8>) -> (result: bool)
    ensures
        result == (bytes_to_int(bytes@) == 0),
{
    proof {
        lemma_zero_bytes(bytes@);
    }
    let mut index: usize = 0;
    while index < bytes.len()
        invariant
            index <= bytes.len(),
            forall|i: int| 0 <= i < index ==> bytes@[i] == 0,
        decreases bytes.len() - index,
    {
        if bytes[index] != 0 {
            proof {
                lemma_zero_bytes(bytes@);
            }
            return false;
        }
        index += 1;
    }
    true
}

/// The integer denoted by the bytes `low`, least significant first,
/// followed by a most significant part worth `top`.
pub open spec fn bytes_below_to_int(low: Seq<u8>, top: int) -> int
    decreases low.len(),
{
    if low.len() == 0 {
        top
    } else {
        low[0] + 256 * bytes_below_to_int(low.skip(1), top)
    }
}

/// One more byte below the top takes its share of the top's worth.
pub proof fn lemma_bytes_below_push(low: Seq<u8>, byte: u8, top: int)
    ensures
        bytes_below_to_int(low.push(byte), top) == bytes_below_to_int(low, byte + 256 * top),
    decreases low.len(),
{
    if low.len() == 0 {
        assert(low.push(byte).skip(1) =~= Seq::<u8>::empty());
        assert(bytes_below_to_int(low.push(byte).skip(1), top) == top);
    } else {
        lemma_bytes_below_push(low.skip(1), byte, top);
        assert(low.push(byte).skip(1) =~= low.skip(1).push(byte));
    }
}

/// A last byte closes the encoding with its signed worth.
pub proof fn lemma_bytes_below_last(low: Seq<u8>, byte: u8)
    ensures
        bytes_to_int(low.push(byte)) == bytes_below_to_int(
            low,
            if byte >= 128 {
                byte - 256
            } else {
                byte as int
            },
        ),
    decreases low.len(),
{
    if low.len() > 0 {
        lemma_bytes_below_last(low.skip(1), byte);
        assert(low.push(byte).skip(1) =~= low.skip(1).push(byte));
    }
}

/// Encodes an integer as little-endian two's-complement bytes.
pub fn integer_to_bytes(value: i64) -> (result: Vec<u8>)
    ensures
        bytes_to_int(result@) == value,
        result@.len() >= 1,
{
    let mut result: Vec<u8> = Vec::new();
    let mut rest: i64 = value;
    while rest < -128 || rest >= 128
        invariant
            bytes_below_to_int(result@, rest as int) == value,
        decreases
                if rest < 0 {
                    -(rest as int)
                } else {
                    rest as int
                },
    {
        let (byte, next): (u8, i64) = if rest >= 0 {
            ((rest % 256) as u8, rest / 256)
        } else {
            let magnitude: i64 = -(rest + 1);
            ((255 - magnitude % 256) as u8, -(magnitude / 256) - 1)
        };
        proof {
            lemma_bytes_below_push(result@, byte, next as int);
        }
        result.push(byte);
        rest = next;
    }
    let last: u8 = if rest < 0 {
        (rest + 256) as u8
    } else {
        rest as u8
    };
    proof {
        lemma_bytes_below_last(result@, last);
    }
    result.push(last);
    result
}

/// An exact rational number.
#[derive(Debug)]
pub struct Fraction {
    numerator: Vec<u8>,
    denominator: Vec<u8>,
}

impl View for Fraction {
    type V = real;

    closed spec fn view(&self) -> real {
        bytes_to_int(self.numerator@) as real / bytes_to_int(self.denominator@) as real
    }
}

impl Fraction {
    #[verifier::type_invariant]
    spec fn is_valid(&self) -> bool {
        &&& is_minimal(self.numerator@)
        &&& is_minimal(self.denominator@)
        &&& is_in_lowest_terms(bytes_to_int(self.numerator@), bytes_to_int(self.denominator@))
    }

    /// The bytes of the numerator.
    pub closed spec fn numerator_bytes(&self) -> Seq<u8> {
        self.numerator@
    }

    /// The bytes of the denominator.
    pub closed spec fn denominator_bytes(&self) -> Seq<u8> {
        self.denominator@
    }

    /// The view is the quotient of the two stored integers.
    pub proof fn lemma_view(&self)
        ensures
            self@ == bytes_to_int(self.numerator_bytes()) as real / bytes_to_int(
                self.denominator_bytes(),
            ) as real,
    {
    }

    /// Builds the fraction of two integers given as little-endian
    /// two's-complement bytes, in lowest terms with a positive
    /// denominator; there is none with a zero or empty denominator, or
    /// with an empty numerator.
    pub fn new(numerator: Vec<u8>, denominator: Vec<u8>) -> (result: Option<Self>)
        ensures
            result is Some <==> numerator@.len() > 0 && denominator@.len() > 0 && bytes_to_int(
                denominator@,
            ) != 0,
            result is Some ==> {
                &&& result->0@ == bytes_to_int(numerator@) as real / bytes_to_int(
                    denominator@,
                ) as real
                &&& is_minimal(result->0.numerator_bytes())
                &&& is_minimal(result->0.denominator_bytes())
                &&& is_in_lowest_terms(
                    bytes_to_int(result->0.numerator_bytes()),
                    bytes_to_int(result->0.denominator_bytes()),
                )
            },
    {
        if numerator.len() == 0 || denominator.len() == 0 || is_zero_bytes(&denominator) {
            None
        } else {
            proof {
                lemma_trimmed(numerator@);
                lemma_trimmed(denominator@);
            }
            let result = Self::reduced(&trim(numerator), &trim(denominator));
            proof {
                use_type_invariant(&result);
            }
            Some(result)
        }
    }

    /// `rithm`'s `Fraction::new` on integers read by `BigInt::from_bytes`
    /// from shortest encodings: the fraction of the same value that
    /// `rithm` keeps, which is in lowest terms with a positive
    /// denominator, stored by `BigInt::to_bytes`, which emits the
    /// shortest encoding. The outside constructor has no fraction for a
    /// zero denominator, which the precondition leaves out.
    #[verifier::external_body]
    fn reduced(numerator: &Vec<u8>, denominator: &Vec<u8>) -> (result: Self)
        requires
            is_minimal(numerator@),
            is_minimal(denominator@),
            bytes_to_int(denominator@) != 0,
        ensures
            result@ == bytes_to_int(numerator@) as real / bytes_to_int(denominator@) as real,
    {
        let value = Exact::new(
            Integer::from_bytes(numerator, Little),
            Integer::from_bytes(denominator, Little),
        ).unwrap();
        Self {
            numerator: value.numerator().to_bytes(Little),
            denominator: value.denominator().to_bytes(Little),
        }
    }

    /// The fraction of two machine integers; there is none with a zero
    /// denominator.
    pub fn from_integers(numerator: i64, denominator: i64) -> (result: Option<Self>)
        ensures
            result is Some <==> denominator != 0,
            result is Some ==> result->0@ == numerator as real / denominator as real,
    {
        Self::new(integer_to_bytes(numerator), integer_to_bytes(denominator))
    }

    /// The numerator of the fraction in lowest terms, as the shortest
    /// little-endian two's-complement bytes.
    pub fn numerator(&self) -> (result: &Vec<u8>)
        ensures
            result@ == self.numerator_bytes(),
            is_minimal(result@),
            is_in_lowest_terms(
                bytes_to_int(self.numerator_bytes()),
                bytes_to_int(self.denominator_bytes()),
            ),
    {
        proof {
            use_type_invariant(self);
        }
        &self.numerator
    }

    /// The denominator of the fraction in lowest terms, which is
    /// positive, as the shortest little-endian two's-complement bytes.
    pub fn denominator(&self) -> (result: &Vec<u8>)
        ensures
            result@ == self.denominator_bytes(),
            is_minimal(result@),
            is_in_lowest_terms(
                bytes_to_int(self.numerator_bytes()),
                bytes_to_int(self.denominator_bytes()),
            ),
    {
        proof {
            use_type_invariant(self);
        }
        &self.denominator
    }

    /// `rithm`'s `Fraction + Fraction`: the exact sum. Both operands are
    /// rebuilt with `Fraction::new` from bytes by `BigInt::from_bytes`,
    /// which reads shortest encodings as the integers they denote; the
    /// result, which `rithm` keeps in lowest terms with a positive
    /// denominator as the type's invariant has it, is stored by
    /// `BigInt::to_bytes`, which emits the shortest encoding.
    #[verifier::external_body]
    pub(crate) fn sum(&self, other: &Self) -> (result: Self)
        ensures
            result@ == self@ + other@,
    {
        let first = Exact::new(
            Integer::from_bytes(&self.numerator, Little),
            Integer::from_bytes(&self.denominator, Little),
        ).unwrap();
        let second = Exact::new(
            Integer::from_bytes(&other.numerator, Little),
            Integer::from_bytes(&other.denominator, Little),
        ).unwrap();
        let value = first + second;
        Self {
            numerator: value.numerator().to_bytes(Little),
            denominator: value.denominator().to_bytes(Little),
        }
    }

    /// `rithm`'s `Fraction - Fraction`: the exact difference, converted as
    /// in [`Fraction::sum`].
    #[verifier::external_body]
    pub(crate) fn difference(&self, other: &Self) -> (result: Self)
        ensures
            result@ == self@ - other@,
    {
        let first = Exact::new(
            Integer::from_bytes(&self.numerator, Little),
            Integer::from_bytes(&self.denominator, Little),
        ).unwrap();
        let second = Exact::new(
            Integer::from_bytes(&other.numerator, Little),
            Integer::from_bytes(&other.denominator, Little),
        ).unwrap();
        let value = first - second;
        Self {
            numerator: value.numerator().to_bytes(Little),
            denominator: value.denominator().to_bytes(Little),
        }
    }

    /// `rithm`'s `Fraction * Fraction`: the exact product, converted as in
    /// [`Fraction::sum`].
    #[verifier::external_body]
    pub(crate) fn product(&self, other: &Self) -> (result: Self)
        ensures
            result@ == self@ * other@,
    {
        let first = Exact::new(
            Integer::from_bytes(&self.numerator, Little),
            Integer::from_bytes(&self.denominator, Little),
        ).unwrap();
        let second = Exact::new(
            Integer::from_bytes(&other.numerator, Little),
            Integer::from_bytes(&other.denominator, Little),
        ).unwrap();
        let value = first * second;
        Self {
            numerator: value.numerator().to_bytes(Little),
            denominator: value.denominator().to_bytes(Little),
        }
    }

    /// `rithm`'s `Fraction / Fraction`: the exact quotient, converted as in
    /// [`Fraction::sum`]. The outside division panics on a zero divisor,
    /// which the precondition leaves out.
    #[verifier::external_body]
    pub(crate) fn quotient(&self, other: &Self) -> (result: Self)
        requires
            other@ != 0real,
        ensures
            result@ == self@ / other@,
    {
        let first = Exact::new(
            Integer::from_bytes(&self.numerator, Little),
            Integer::from_bytes(&self.denominator, Little),
        ).unwrap();
        let second = Exact::new(
            Integer::from_bytes(&other.numerator, Little),
            Integer::from_bytes(&other.denominator, Little),
        ).unwrap();
        let value = first / second;
        Self {
            numerator: value.numerator().to_bytes(Little),
            denominator: value.denominator().to_bytes(Little),
        }
    }

    /// `rithm`'s `Signed::sign` of a fraction rebuilt as in
    /// [`Fraction::sum`]: the sign of its value.
    #[verifier::external_body]
    pub(crate) fn sign(&self) -> (result: Sign)
        ensures
            result == sign_of(self@),
    {
        let value = Exact::new(
            Integer::from_bytes(&self.numerator, Little),
            Integer::from_bytes(&self.denominator, Little),
        ).unwrap();
        match (&value).sign() {
            traiter::numbers::Sign::Negative => Sign::Negative,
            traiter::numbers::Sign::Zero => Sign::Zero,
            traiter::numbers::Sign::Positive => Sign::Positive,
        }
    }

    /// `rithm`'s `==` on fractions rebuilt as in [`Fraction::sum`]: both are
    /// in lowest terms there, so it holds exactly when the values agree.
    #[verifier::external_body]
    pub(crate) fn equals(&self, other: &Self) -> (result: bool)
        ensures
            result == (self@ == other@),
    {
        let first = Exact::new(
            Integer::from_bytes(&self.numerator, Little),
            Integer::from_bytes(&self.denominator, Little),
        ).unwrap();
        let second = Exact::new(
            Integer::from_bytes(&other.numerator, Little),
            Integer::from_bytes(&other.denominator, Little),
        ).unwrap();
        first == second
    }

    /// `rithm`'s `<` on fractions rebuilt as in [`Fraction::sum`]: the order
    /// of their values.
    #[verifier::external_body]
    pub(crate) fn less_than(&self, other: &Self) -> (result: bool)
        ensures
            result == (self@ < other@),
    {
        let first = Exact::new(
            Integer::from_bytes(&self.numerator, Little),
            Integer::from_bytes(&self.denominator, Little),
        ).unwrap();
        let second = Exact::new(
            Integer::from_bytes(&other.numerator, Little),
            Integer::from_bytes(&other.denominator, Little),
        ).unwrap();
        first < second
    }
}

impl Fraction {
    /// Three-way comparison of the values.
    pub fn compare(&self, other: &Self) -> (result: Comparison)
        ensures
            result == reals_comparison(self@, other@),
    {
        if self.less_than(other) {
            Comparison::Less
        } else if other.less_than(self) {
            Comparison::Greater
        } else {
            Comparison::Equal
        }
    }
}

impl PartialEq for Fraction {
    fn eq(&self, other: &Self) -> (result: bool) {
        self.equals(other)
    }
}

impl PartialEqSpecImpl for Fraction {
    open spec fn obeys_eq_spec() -> bool {
        true
    }

    open spec fn eq_spec(&self, other: &Self) -> bool {
        self@ == other@
    }
}

impl Clone for Fraction {
    fn clone(&self) -> (result: Self)
        ensures
            result@ == self@,
            result.numerator_bytes() == self.numerator_bytes(),
            result.denominator_bytes() == self.denominator_bytes(),
    {
        proof {
            use_type_invariant(self);
        }
        let numerator = self.numerator.clone();
        let denominator = self.denominator.clone();
        assert(numerator@ =~= self.numerator@);
        assert(denominator@ =~= self.denominator@);
        Self { numerator, denominator }
    }
}

} // verus!
