use vstd::prelude::*;

verus! {

/// True when bit `n` (0 = least significant, 7 = most significant) of `b` is set.
pub open spec fn bit_of(b: u8, n: u8) -> bool
    recommends
        n <= 7,
{
    (b >> n) & 1 == 1
}

/// The byte `b` with bit `n` forced to `value` and every other bit kept.
pub open spec fn set_bit_spec(b: u8, n: u8, value: bool) -> u8
    recommends
        n <= 7,
{
    if value {
        b | (1u8 << n)
    } else {
        b & !(1u8 << n)
    }
}

/// The byte `b` with its least significant bit forced to `value`.
pub open spec fn set_lsb_spec(b: u8, value: bool) -> u8 {
    if value {
        b | 0x01
    } else {
        b & 0xfe
    }
}

/// The least significant bit of `b`, phrased as "`b` is odd".
pub open spec fn lsb_of(b: u8) -> bool {
    b % 2 != 0
}

/// The byte whose bits 0 through 7 are the given values.
pub open spec fn byte_of_bits(
    b0: bool,
    b1: bool,
    b2: bool,
    b3: bool,
    b4: bool,
    b5: bool,
    b6: bool,
    b7: bool,
) -> u8 {
    (if b0 { 0x01u8 } else { 0u8 }) | (if b1 { 0x02u8 } else { 0u8 }) | (if b2 { 0x04u8 } else { 0u8 })
        | (if b3 { 0x08u8 } else { 0u8 }) | (if b4 { 0x10u8 } else { 0u8 }) | (if b5 { 0x20u8 } else { 0u8 })
        | (if b6 { 0x40u8 } else { 0u8 }) | (if b7 { 0x80u8 } else { 0u8 })
}

/// Bit-manipulation operations on a byte-like value.
pub trait BitOps: Sized {
    /// The byte this value stands for.
    spec fn as_byte(&self) -> u8;

    /// Returns the bit on the specified position.
    fn get_bit(&self, n: u8) -> (r: bool)
        requires
            n <= 7,
        ensures
            r == bit_of(self.as_byte(), n),
    ;

    /// Sets a bit on the specified position.
    fn set_bit(&self, n: usize, value: bool) -> (r: u8)
        requires
            n <= 7,
        ensures
            r == set_bit_spec(self.as_byte(), n as u8, value),
    ;

    /// Sets the least significant bit of a number according to the passed value.
    fn set_lsb(&self, value: bool) -> (r: Self)
        ensures
            r.as_byte() == set_lsb_spec(self.as_byte(), value),
    ;

    /// Returns the least significant bit.
    fn get_lsb(&self) -> (r: bool)
        ensures
            r == lsb_of(self.as_byte()),
    ;
}

/// Expansion of a byte-like value into its individual bits.
pub trait BitBuffer: BitOps {
    /// Returns a vector of bools representing the single bits of self,
    /// least significant bit first.
    fn to_bit_buffer(&self) -> (r: Vec<bool>)
        ensures
            r@.len() == 8,
            forall|i: int| 0 <= i < 8 ==> r@[i] == bit_of(self.as_byte(), i as u8),
    ;
}

impl BitOps for u8 {
    open spec fn as_byte(&self) -> u8 {
        *self
    }

    fn get_bit(&self, n: u8) -> (r: bool) {
        let result = *self >> n & 1;
        result == 1
    }

    fn set_bit(&self, n: usize, value: bool) -> (r: u8) {
        let mut result = *self;
        if value {
            result |= 1u8 << n;
        } else {
            result &= !(1u8 << n);
        }
        proof {
            assert(result == set_bit_spec(*self, n as u8, value)) by (bit_vector)
                requires
                    n <= 7,
                    result == (if value {
                        *self | (1u8 << (n as usize))
                    } else {
                        *self & !(1u8 << (n as usize))
                    }),
            ;
        }
        result
    }

    fn set_lsb(&self, value: bool) -> (r: u8) {
        let mut result = *self;
        if value {
            result |= 0b0000_0001;
            return result;
        }
        result &= 0b1111_1110;
        result
    }

    fn get_lsb(&self) -> (r: bool) {
        self % 2 != 0
    }
}

impl BitBuffer for u8 {
    fn to_bit_buffer(&self) -> (r: Vec<bool>) {
        let mut result: Vec<bool> = Vec::new();
        let mut i: u8 = 0;
        while i < 8
            invariant
                i <= 8,
                result@.len() == i,
                forall|j: int| 0 <= j < i ==> result@[j] == bit_of(*self, j as u8),
            decreases 8 - i,
        {
            result.push(self.get_bit(i));
            i += 1;
        }
        result
    }
}

/// Forcing the least significant bit leaves exactly that bit behind.
pub proof fn lemma_lsb_of_set_lsb(b: u8, value: bool)
    ensures
        lsb_of(set_lsb_spec(b, value)) == value,
{
    assert(lsb_of(set_lsb_spec(b, value)) == value) by (bit_vector);
}

/// A byte rebuilt from its own eight bits is that byte.
pub proof fn lemma_byte_of_bits_of(x: u8)
    ensures
        byte_of_bits(
            bit_of(x, 0),
            bit_of(x, 1),
            bit_of(x, 2),
            bit_of(x, 3),
            bit_of(x, 4),
            bit_of(x, 5),
            bit_of(x, 6),
            bit_of(x, 7),
        ) == x,
{
    assert(byte_of_bits(
        bit_of(x, 0),
        bit_of(x, 1),
        bit_of(x, 2),
        bit_of(x, 3),
        bit_of(x, 4),
        bit_of(x, 5),
        bit_of(x, 6),
        bit_of(x, 7),
    ) == x) by (bit_vector);
}

/// Writing bits 0 through 7 in turn into a zero byte yields the byte with
/// exactly those bits.
pub proof fn lemma_set_bit_chain(
    b0: bool,
    b1: bool,
    b2: bool,
    b3: bool,
    b4: bool,
    b5: bool,
    b6: bool,
    b7: bool,
)
    ensures
        set_bit_spec(
            set_bit_spec(
                set_bit_spec(
                    set_bit_spec(
                        set_bit_spec(
                            set_bit_spec(set_bit_spec(set_bit_spec(0u8, 0, b0), 1, b1), 2, b2),
                            3,
                            b3,
                        ),
                        4,
                        b4,
                    ),
                    5,
                    b5,
                ),
                6,
                b6,
            ),
            7,
            b7,
        ) == byte_of_bits(b0, b1, b2, b3, b4, b5, b6, b7),
{
    assert(set_bit_spec(
        set_bit_spec(
            set_bit_spec(
                set_bit_spec(
                    set_bit_spec(
                        set_bit_spec(set_bit_spec(set_bit_spec(0u8, 0, b0), 1, b1), 2, b2),
                        3,
                        b3,
                    ),
                    4,
                    b4,
                ),
                5,
                b5,
            ),
            6,
            b6,
        ),
        7,
        b7,
    ) == byte_of_bits(b0, b1, b2, b3, b4, b5, b6, b7)) by (bit_vector);
}

} // verus!
