use vstd::prelude::*;

verus! {

/// A 24-bit RGB colour, red in bits 16..24, green in bits 8..16, blue in bits 0..8.
#[derive(Copy, Clone, Debug, PartialEq, Eq, Structural)]
pub struct Color(u32);

impl Color {
    /// The colour's 24-bit value.
    pub closed spec fn value(&self) -> u32 {
        self.0
    }

    #[verifier::type_invariant]
    spec fn fits(&self) -> bool {
        self.0 <= 0xffffff
    }

    /// Colours with equal values are equal.
    pub proof fn lemma_value_eq(a: Color, b: Color)
        requires
            a.value() == b.value(),
        ensures
            a == b,
    {
    }

    /// The colour of the low 24 bits of `hex`.
    pub fn from_hex(hex: u32) -> (r: Self)
        ensures
            r.value() == hex & 0xffffff,
            hex <= 0xffffff ==> r.value() == hex,
    {
        assert(hex & 0xffffff <= 0xffffff) by (bit_vector);
        assert(hex <= 0xffffff ==> hex & 0xffffff == hex) by (bit_vector);
        Color(hex & 0xffffff)
    }

    /// The colour with the given channels.
    pub fn from_rgb(r: u8, g: u8, b: u8) -> (c: Self)
        ensures
            c.value() == (r as u32) << 16u32 | (g as u32) << 8u32 | b as u32,
            c.value() < 0x1000000,
    {
        let v = (r as u32) << 16u32 | (g as u32) << 8u32 | b as u32;
        assert(((r as u32) << 16u32 | (g as u32) << 8u32 | b as u32) < 0x1000000) by (bit_vector);
        Color(v)
    }

    /// Black: all channels off.
    pub fn black() -> (r: Self)
        ensures
            r.value() == 0,
    {
        Color(0)
    }

    /// White: all channels full.
    pub fn white() -> (r: Self)
        ensures
            r.value() == 0xffffff,
    {
        Color(0xffffff)
    }

    /// The colour's 24-bit value.
    pub fn hex(&self) -> (r: u32)
        ensures
            r == self.value(),
            r <= 0xffffff,
    {
        proof {
            use_type_invariant(self);
        }
        self.0
    }
}

} // verus!
