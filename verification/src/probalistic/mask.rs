use vstd::arithmetic::power2::lemma2_to64;
use vstd::bits::{lemma_usize_shl_is_mul, lemma_usize_shr_is_div};
use vstd::prelude::*;

verus! {

/// The number of ones in the binary form of `x`.
pub open spec fn ones(x: nat) -> nat
    decreases x,
{
    if x == 0 {
        0
    } else {
        x % 2 + ones(x / 2)
    }
}

/// `u8::count_ones` of std: the number of ones in the binary form of the
/// value.
pub assume_specification[ u8::count_ones ](x: u8) -> (n: u32)
    ensures
        n == ones(x as nat),
;

/// Whether the bit at place `r` of `byte` is set, the highest bit being at
/// place 0.
pub open spec fn bit_of(byte: u8, r: int) -> bool {
    byte & (0x80u8 >> (r as u8)) != 0
}

/// Whether the bit at place `j` of a row of bytes is set.
pub open spec fn bit_at(bytes: Seq<u8>, j: int) -> bool {
    0 <= j < bytes.len() * 8 && bit_of(bytes[j / 8], j % 8)
}

/// Setting the bit at place `r` sets that bit and changes no other.
pub proof fn lemma_bit_set(byte: u8, r: u8, q: u8)
    requires
        r < 8,
        q < 8,
    ensures
        bit_of(byte | (0x80u8 >> r), q as int) == (bit_of(byte, q as int) || q == r),
{
    assert(((byte | (0x80u8 >> r)) & (0x80u8 >> q) != 0) == ((byte & (0x80u8 >> q) != 0) || q == r))
        by (bit_vector)
        requires
            r < 8,
            q < 8,
    ;
}

/// What is left of a byte under the mask of one place holds a single one
/// where the bit at that place is set, and none where it is not.
pub proof fn lemma_bit_ones(byte: u8, r: u8)
    requires
        r < 8,
    ensures
        ones((byte & (0x80u8 >> r)) as nat) == (if bit_of(byte, r as int) {
            1nat
        } else {
            0nat
        }),
{
    let m = 0x80u8 >> r;
    let x = byte & m;
    assert(x == 0 || x == m) by (bit_vector)
        requires
            r < 8,
            m == 0x80u8 >> r,
            x == byte & m,
    ;
    assert(m == 128 || m == 64 || m == 32 || m == 16 || m == 8 || m == 4 || m == 2 || m == 1)
        by (bit_vector)
        requires
            r < 8,
            m == 0x80u8 >> r,
    ;
    reveal_with_fuel(ones, 9);
}

/// A row of bits, all clear at first, that can be set one by one.
pub struct Mask {
    bytes: Vec<u8>,
}

impl Mask {
    /// The row has at least one byte, and its bits can be counted in a `usize`.
    pub closed spec fn wf(&self) -> bool {
        0 < self.bytes@.len() <= usize::MAX / 8
    }

    /// The number of bits of the row.
    pub closed spec fn spec_len(&self) -> nat {
        self.bytes@.len() * 8
    }

    /// The places of the bits that are set.
    pub closed spec fn view(&self) -> Set<int> {
        Set::new(|j: int| bit_at(self.bytes@, j))
    }

    /// A row of clear bits: as many whole bytes as `size` bits fill, and one
    /// more.
    pub fn with_size(size: usize) -> (r: Self)
        requires
            size / 8 < usize::MAX / 8,
        ensures
            r.wf(),
            r.spec_len() == (size / 8 + 1) * 8,
            r@ == Set::<int>::empty(),
    {
        proof {
            lemma2_to64();
            lemma_usize_shr_is_div(size, 3);
        }
        let r = Self { bytes: vec![0; (size >> 3) + 1] };
        proof {
            assert forall|j: int| !#[trigger] bit_at(r.bytes@, j) by {
                if 0 <= j < r.bytes@.len() * 8 {
                    let q = (j % 8) as u8;
                    assert(0u8 & (0x80u8 >> q) == 0) by (bit_vector);
                }
            }
            assert(r@ =~= Set::<int>::empty());
        }
        r
    }

    /// The number of bits of the row.
    pub fn len(&self) -> (n: usize)
        requires
            self.wf(),
        ensures
            n == self.spec_len(),
            n > 0,
    {
        proof {
            lemma2_to64();
            lemma_usize_shl_is_mul(self.bytes.len(), 3);
        }
        self.bytes.len() << 3
    }

    /// Sets the bit at place `bit_number`.
    pub fn update(&mut self, bit_number: usize)
        requires
            old(self).wf(),
            bit_number < old(self).spec_len(),
        ensures
            final(self).wf(),
            final(self).spec_len() == old(self).spec_len(),
            final(self)@ == old(self)@.insert(bit_number as int),
    {
        proof {
            lemma2_to64();
            lemma_usize_shr_is_div(bit_number, 3);
            lemma_usize_shl_is_mul(bit_number >> 3, 3);
        }
        let byte_number = bit_number >> 3;
        let place = (bit_number - (byte_number << 3)) as u8;
        let bit_number_in_byte = 0b1000_0000u8 >> place;
        let byte = self.bytes[byte_number];
        self.bytes[byte_number] = byte | bit_number_in_byte;
        proof {
            assert forall|j: int| final(self)@.contains(j) == old(self)@.insert(bit_number as int).contains(j) by {
                if 0 <= j < self.bytes@.len() * 8 {
                    if j / 8 == byte_number {
                        lemma_bit_set(byte, place, (j % 8) as u8);
                    }
                }
            }
            assert(self@ =~= old(self)@.insert(bit_number as int));
        }
    }

    /// Whether the bit at place `bit_number` is set.
    pub fn check(&self, bit_number: usize) -> (r: bool)
        requires
            self.wf(),
            bit_number < self.spec_len(),
        ensures
            r == self@.contains(bit_number as int),
    {
        proof {
            lemma2_to64();
            lemma_usize_shr_is_div(bit_number, 3);
            lemma_usize_shl_is_mul(bit_number >> 3, 3);
        }
        let byte_number = bit_number >> 3;
        let place = (bit_number - (byte_number << 3)) as u8;
        let bit_number_in_byte = 0b1000_0000u8 >> place;
        proof {
            lemma_bit_ones(self.bytes@[byte_number as int], place);
        }
        (self.bytes[byte_number] & bit_number_in_byte).count_ones() == 1
    }
}

} // verus!
