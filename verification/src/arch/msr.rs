//! Model specific registers.

use vstd::prelude::*;

verus! {

#[derive(Debug, Clone, Copy, PartialEq, Eq, Structural)]
pub enum ModelSpecificRegister {
    ApicBase,
    Efer,
    Star,
    LStar,
    CStar,
    SfMask,
    GsBase,
    KernelGsBase,
}

/// A value to be written to a model specific register: the register's
/// number and the two halves of the value.
#[derive(Debug, Clone, Copy, PartialEq, Eq, Structural)]
pub struct MsrWrite {
    pub register: u32,
    pub low: u32,
    pub high: u32,
}

impl ModelSpecificRegister {
    /// The number by which the processor knows the register.
    pub open spec fn spec_number(self) -> u32 {
        match self {
            ModelSpecificRegister::ApicBase => 0x0000_001B,
            ModelSpecificRegister::Efer => 0xC000_0080,
            ModelSpecificRegister::Star => 0xC000_0081,
            ModelSpecificRegister::LStar => 0xC000_0082,
            ModelSpecificRegister::CStar => 0xC000_0083,
            ModelSpecificRegister::SfMask => 0xC000_0084,
            ModelSpecificRegister::GsBase => 0xC000_0101,
            ModelSpecificRegister::KernelGsBase => 0xC000_0102,
        }
    }

    /// The number by which the processor knows the register.
    pub fn number(self) -> (r: u32)
        ensures
            r == self.spec_number(),
    {
        match self {
            ModelSpecificRegister::ApicBase => 0x0000_001B,
            ModelSpecificRegister::Efer => 0xC000_0080,
            ModelSpecificRegister::Star => 0xC000_0081,
            ModelSpecificRegister::LStar => 0xC000_0082,
            ModelSpecificRegister::CStar => 0xC000_0083,
            ModelSpecificRegister::SfMask => 0xC000_0084,
            ModelSpecificRegister::GsBase => 0xC000_0101,
            ModelSpecificRegister::KernelGsBase => 0xC000_0102,
        }
    }

    /// The register's value, put together from the two halves that the
    /// processor hands out.
    pub fn read(self, low: u32, high: u32) -> (r: u64)
        ensures
            r == low + high * 0x1_0000_0000,
    {
        let value: u64 = ((high as u64) << 32) | (low as u64);
        assert(((high as u64) << 32) | (low as u64) == (low as u64) + (high as u64)
            * 0x1_0000_0000) by (bit_vector);
        value
    }

    /// What the processor is to be handed to store `value` in the register.
    pub fn write(self, value: u64) -> (r: MsrWrite)
        ensures
            r.register == self.spec_number(),
            r.low == value % 0x1_0000_0000,
            r.high == value / 0x1_0000_0000,
    {
        let low: u32 = value as u32;
        let high: u32 = (value >> 32) as u32;
        assert(value as u32 == value % 0x1_0000_0000 && (value >> 32) as u32 == value
            / 0x1_0000_0000) by (bit_vector);
        MsrWrite { register: self.number(), low, high }
    }
}

} // verus!
