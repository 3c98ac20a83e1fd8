use ff::PrimeField;
use vstd::prelude::*;

verus! {

/// Thirty-two bytes: a hash, or a field element in its little-endian encoding.
pub type Hash = [u8; 32];

/// The number that a little-endian byte string encodes.
pub open spec fn le_nat(bytes: Seq<u8>) -> nat
    decreases bytes.len(),
{
    if bytes.len() == 0 {
        0
    } else {
        bytes[0] as nat + 256 * le_nat(bytes.drop_first())
    }
}

/// A byte string of zeros encodes zero.
pub proof fn lemma_le_nat_zeros(bytes: Seq<u8>)
    requires
        forall|i: int| 0 <= i < bytes.len() ==> bytes[i] == 0,
    ensures
        le_nat(bytes) == 0,
    decreases bytes.len(),
{
    if bytes.len() > 0 {
        lemma_le_nat_zeros(bytes.drop_first());
    }
}

/// Two byte strings of one length that encode the same number are equal.
pub proof fn lemma_le_nat_injective(a: Seq<u8>, b: Seq<u8>)
    requires
        a.len() == b.len(),
        le_nat(a) == le_nat(b),
    ensures
        a == b,
    decreases a.len(),
{
    if a.len() > 0 {
        lemma_le_nat_injective(a.drop_first(), b.drop_first());
        assert(a =~= seq![a[0]] + a.drop_first());
        assert(b =~= seq![b[0]] + b.drop_first());
    } else {
        assert(a =~= b);
    }
}

/// The characteristic of the Pallas base field,
/// `0x40000000000000000000000000000000224698fc094cf91b992d30ed00000001`.
pub open spec fn modulus() -> nat {
    0x40000000000000000000000000000000nat * 0x10000000000000000nat * 0x10000000000000000nat
        + 0x224698fc094cf91b992d30ed00000001nat
}

/// An element of the Pallas base field, held as its canonical encoding.
#[derive(Clone, Copy, Debug, PartialEq, Eq)]
pub struct Fp {
    pub(crate) repr: Hash,
}

impl View for Fp {
    type V = nat;

    /// The element as a number below the modulus.
    open spec fn view(&self) -> nat {
        le_nat(self.encoding())
    }
}

/// The numbers that a sequence of field elements holds.
pub open spec fn values(s: Seq<Fp>) -> Seq<nat> {
    s.map_values(|f: Fp| f@)
}

impl Fp {
    /// The thirty-two bytes that encode the element.
    pub closed spec fn encoding(self) -> Seq<u8> {
        self.repr@
    }

    /// Every element is held in canonical form: its encoding is below the modulus.
    #[verifier::type_invariant]
    pub open spec fn canonical(self) -> bool {
        le_nat(self.encoding()) < modulus()
    }

    /// Reads a field element from its encoding; `None` where the bytes encode
    /// a number that is not below the modulus.
    pub fn from_bytes(bytes: &Hash) -> (r: Option<Fp>)
        ensures
            r.is_some() <==> le_nat(bytes@) < modulus(),
            r.is_some() ==> r.unwrap().encoding() == bytes@,
    {
        if is_canonical(bytes) {
            Some(Fp { repr: *bytes })
        } else {
            None
        }
    }

    /// Reads a field element from a byte string; `None` unless it has 32
    /// bytes that encode a number below the modulus.
    pub fn from_slice(bytes: &[u8]) -> (r: Option<Fp>)
        ensures
            r.is_some() <==> bytes@.len() == 32 && le_nat(bytes@) < modulus(),
            r.is_some() ==> r.unwrap().encoding() == bytes@,
    {
        if bytes.len() != 32 {
            return None;
        }
        let mut repr = [0u8;32];
        let mut i: usize = 0;
        while i < 32
            invariant
                bytes@.len() == 32,
                i <= 32,
                forall|k: int| 0 <= k < i ==> repr@[k] == bytes@[k],
            decreases 32 - i,
        {
            repr[i] = bytes[i];
            i += 1;
        }
        assert(repr@ =~= bytes@);
        Fp::from_bytes(&repr)
    }

    /// The canonical encoding of the element.
    pub fn to_bytes(&self) -> (r: Hash)
        ensures
            r@ == self.encoding(),
            le_nat(r@) < modulus(),
    {
        proof {
            use_type_invariant(self);
        }
        self.repr
    }

    /// The field element of a small number.
    pub fn from_u64(v: u64) -> (r: Fp)
        ensures
            r@ == v as nat,
    {
        embed(v)
    }

    /// The sum of two elements.
    pub fn plus(&self, other: &Fp) -> (r: Fp)
        ensures
            r@ == (self@ + other@) % modulus(),
    {
        sum(self, other)
    }

    /// The difference of two elements.
    pub fn minus(&self, other: &Fp) -> (r: Fp)
        ensures
            r@ == (self@ - other@) % (modulus() as int),
    {
        difference(self, other)
    }

    /// The additive inverse of the element.
    pub fn negated(&self) -> (r: Fp)
        ensures
            r@ == (modulus() - self@) % (modulus() as int),
    {
        opposite(self)
    }

    /// Whether the element comes before `other` in the order of the
    /// encodings, which is the order of the numbers.
    pub fn is_below(&self, other: &Fp) -> (r: bool)
        ensures
            r == (self@ < other@),
    {
        precedes(self, other)
    }

    /// Zero.
    pub fn zero() -> (r: Fp)
        ensures
            r@ == 0,
    {
        embed(0)
    }

    /// One.
    pub fn one() -> (r: Fp)
        ensures
            r@ == 1,
    {
        embed(1)
    }
}

impl Default for Fp {
    /// Zero.
    fn default() -> (r: Fp)
        ensures
            r@ == 0,
    {
        Fp::zero()
    }
}

/// Whether every row is the canonical encoding of a field element.
pub open spec fn all_elements(rows: Seq<Vec<u8>>) -> bool {
    forall|i: int|
        0 <= i < rows.len() ==> (#[trigger] rows[i])@.len() == 32 && le_nat(rows[i]@) < modulus()
}

/// Reads field elements from their encodings; `None` unless every row is the
/// canonical encoding of one.
pub fn field_elements(rows: &Vec<Vec<u8>>) -> (r: Option<Vec<Fp>>)
    ensures
        r.is_some() <==> all_elements(rows@),
        r.is_some() ==> {
            &&& r.unwrap()@.len() == rows@.len()
            &&& forall|i: int|
                0 <= i < rows@.len() ==> (#[trigger] r.unwrap()@[i]).encoding() == rows@[i]@
        },
{
    let mut elements: Vec<Fp> = Vec::new();
    let mut i: usize = 0;
    while i < rows.len()
        invariant
            i <= rows.len(),
            elements@.len() == i,
            forall|k: int|
                0 <= k < i ==> (#[trigger] rows@[k])@.len() == 32 && le_nat(rows@[k]@) < modulus(),
            forall|k: int| 0 <= k < i ==> (#[trigger] elements@[k]).encoding() == rows@[k]@,
        decreases rows.len() - i,
    {
        match Fp::from_slice(rows[i].as_slice()) {
            Some(element) => {
                elements.push(element);
            },
            None => {
                assert(!(rows@[i as int]@.len() == 32 && le_nat(rows@[i as int]@) < modulus()));
                return None;
            },
        }
        i += 1;
    }
    Some(elements)
}

/// `PrimeField::from_repr` of `pasta_curves::Fp`, asked only whether it accepts:
/// it does exactly when the bytes, read as a little-endian number, are below the
/// modulus.
#[verifier::external_body]
fn is_canonical(bytes: &Hash) -> (ok: bool)
    ensures
        ok == (le_nat(bytes@) < modulus()),
{
    bool::from(pasta_curves::Fp::from_repr(*bytes).is_some())
}

/// `From<u64>` of `pasta_curves::Fp`, followed by `to_repr`: the element whose
/// value is the given number.
#[verifier::external_body]
fn embed(v: u64) -> (r: Fp)
    ensures
        r@ == v as nat,
{
    Fp { repr: pasta_curves::Fp::from(v).to_repr() }
}

/// `Add` of `pasta_curves::Fp`: the sum in the field.
#[verifier::external_body]
fn sum(a: &Fp, b: &Fp) -> (r: Fp)
    ensures
        r@ == (a@ + b@) % modulus(),
{
    let x = pasta_curves::Fp::from_repr(a.repr).unwrap();
    let y = pasta_curves::Fp::from_repr(b.repr).unwrap();
    Fp { repr: (x + y).to_repr() }
}

/// `Sub` of `pasta_curves::Fp`: the difference in the field.
#[verifier::external_body]
fn difference(a: &Fp, b: &Fp) -> (r: Fp)
    ensures
        r@ == (a@ - b@) % (modulus() as int),
{
    let x = pasta_curves::Fp::from_repr(a.repr).unwrap();
    let y = pasta_curves::Fp::from_repr(b.repr).unwrap();
    Fp { repr: (x - y).to_repr() }
}

/// `Neg` of `pasta_curves::Fp`: the additive inverse in the field.
#[verifier::external_body]
fn opposite(a: &Fp) -> (r: Fp)
    ensures
        r@ == (modulus() - a@) % (modulus() as int),
{
    let x = pasta_curves::Fp::from_repr(a.repr).unwrap();
    Fp { repr: (-x).to_repr() }
}

/// `<` of `pasta_curves::Fp`, which orders elements by their canonical encoding
/// read from the most significant byte: the order of their values.
#[verifier::external_body]
fn precedes(a: &Fp, b: &Fp) -> (r: bool)
    ensures
        r == (a@ < b@),
{
    let x = pasta_curves::Fp::from_repr(a.repr).unwrap();
    let y = pasta_curves::Fp::from_repr(b.repr).unwrap();
    x < y
}

/// `sort` of std's slices, on the elements as `pasta_curves::Fp`, whose order
/// is that of their values: the same elements, each as often as before, in
/// ascending order.
#[verifier::external_body]
pub(crate) fn sort_elements(elements: &mut Vec<Fp>)
    ensures
        values(final(elements)@).to_multiset() == values(old(elements)@).to_multiset(),
        forall|i: int, j: int|
            0 <= i <= j < final(elements)@.len() ==> values(final(elements)@)[i] <= values(
                final(elements)@,
            )[j],
{
    let mut outside: Vec<pasta_curves::Fp> =
        elements.iter().map(|f| pasta_curves::Fp::from_repr(f.repr).unwrap()).collect();
    outside.sort();
    *elements = outside.iter().map(|x| Fp { repr: x.to_repr() }).collect();
}

} // verus!
