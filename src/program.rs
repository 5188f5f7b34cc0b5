//! The decoded module that an interpreter runs.
use vstd::prelude::*;
use quake3_qvm::Instruction;

verus! {

/// Lets verified code name and match quake3_qvm's decoded instruction enum,
/// whose variants and operands are plain integers.
#[verifier::external_type_specification]
pub struct ExInstruction(quake3_qvm::Instruction);

/// A decoded bytecode module: its code, its initialised data words, its
/// literal bytes and the number of zero-initialised (bss) words.
#[derive(Debug)]
pub struct Program {
    pub instructions: Vec<Instruction>,
    pub data: Vec<u32>,
    pub lit: Vec<u8>,
    pub bss_length: u32,
}

impl Program {
    /// Bytes of the memory image before the stack: data words, literals, bss.
    pub open spec fn image_len(&self) -> int {
        self.data@.len() * 4 + self.lit@.len() + self.bss_length * 4
    }
}

} // verus!
