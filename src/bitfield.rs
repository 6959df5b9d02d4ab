use vstd::prelude::*;

verus! {

/// Piece availability: bit `i` is bit `7 - i % 8` of byte `i / 8`, so the
/// most significant bit of the first byte is index 0.
#[derive(Debug)]
pub struct BitField {
    bf: Vec<u8>,
}

#[derive(Debug, PartialEq, Eq)]
pub enum BitFieldError {
    InvalidBit(usize),
}

/// Whether bit `i` is set in the raw bytes.
pub open spec fn bit_of(bytes: Seq<u8>, i: int) -> bool {
    (bytes[i / 8] >> ((7 - i % 8) as u8)) & 1u8 == 1u8
}

/// The number of addressable bits.
pub open spec fn bit_count(bytes: Seq<u8>) -> int {
    8 * bytes.len() as int
}

impl View for BitField {
    type V = Seq<u8>;

    closed spec fn view(&self) -> Seq<u8> {
        self.bf@
    }
}

proof fn lemma_set_bit(b: u8, k: u8, m: u8)
    requires
        k < 8,
        m < 8,
    ensures
        ((b | (1u8 << k)) >> m) & 1u8 == 1u8 <==> ((b >> m) & 1u8 == 1u8 || m == k),
{
    assert(((b | (1u8 << k)) >> m) & 1u8 == 1u8 <==> ((b >> m) & 1u8 == 1u8 || m == k))
        by (bit_vector)
        requires
            k < 8,
            m < 8,
    ;
}

impl BitField {
    /// Adopts the raw bytes as they are.
    pub fn new(bf: Vec<u8>) -> (r: BitField)
        ensures
            r@ == bf@,
    {
        BitField { bf }
    }

    pub fn is_set(&self, bit: usize) -> (r: Result<bool, BitFieldError>)
        ensures
            bit < bit_count(self@) ==> r == Ok::<bool, BitFieldError>(bit_of(self@, bit as int)),
            bit >= bit_count(self@) ==> r == Err::<bool, BitFieldError>(
                BitFieldError::InvalidBit(bit),
            ),
    {
        let byte = bit / 8;
        let offset_in_byte = (bit % 8) as u8;
        if byte < self.bf.len() {
            Ok((self.bf[byte] >> (7 - offset_in_byte)) & 1 == 1)
        } else {
            Err(BitFieldError::InvalidBit(bit))
        }
    }

    /// Sets one bit; an index past the end is refused and changes nothing.
    pub fn set(&mut self, bit: usize) -> (r: Result<(), BitFieldError>)
        ensures
            final(self)@.len() == old(self)@.len(),
            bit < bit_count(old(self)@) ==> r is Ok && final(self)@ == old(self)@.update(
                bit as int / 8,
                old(self)@[bit as int / 8] | (1u8 << ((7 - bit % 8) as u8)),
            ),
            bit < bit_count(old(self)@) ==> forall|i: int|
                0 <= i < bit_count(old(self)@) ==> #[trigger] bit_of(final(self)@, i) == (bit_of(
                    old(self)@,
                    i,
                ) || i == bit),
            bit >= bit_count(old(self)@) ==> r == Err::<(), BitFieldError>(
                BitFieldError::InvalidBit(bit),
            ) && final(self)@ == old(self)@,
    {
        let byte = bit / 8;
        let offset_in_byte = (bit % 8) as u8;
        if byte < self.bf.len() {
            let updated = self.bf[byte] | (1u8 << (7 - offset_in_byte));
            self.bf.set(byte, updated);
            proof {
                assert forall|i: int| 0 <= i < bit_count(old(self)@) implies #[trigger] bit_of(
                    self@,
                    i,
                ) == (bit_of(old(self)@, i) || i == bit) by {
                    if i / 8 == byte as int {
                        lemma_set_bit(old(self)@[i / 8], (7 - bit % 8) as u8, (7 - i % 8) as u8);
                    }
                }
            }
            Ok(())
        } else {
            Err(BitFieldError::InvalidBit(bit))
        }
    }
}

impl From<Vec<u8>> for BitField {
    fn from(bf: Vec<u8>) -> BitField {
        BitField { bf }
    }
}

impl vstd::std_specs::convert::FromSpecImpl<Vec<u8>> for BitField {
    open spec fn obeys_from_spec() -> bool {
        true
    }

    closed spec fn from_spec(bf: Vec<u8>) -> BitField {
        BitField { bf }
    }
}

/// A bitfield made with `BitField::from` holds exactly the given bytes.
pub broadcast proof fn lemma_from_bytes(bf: Vec<u8>)
    ensures
        (#[trigger] <BitField as vstd::std_specs::convert::FromSpec<Vec<u8>>>::from_spec(
            bf,
        ))@ == bf@,
{
}

} // verus!
