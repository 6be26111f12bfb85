//! What the instruction decoder says of the bytes at a place in code.
//!
//! Nothing here is proved: each function hands a question to the decoder
//! and gives its answer a name, so that the engines can say what they do
//! with it.

use iced_x86::{Code, Decoder, DecoderOptions, OpKind, Register};
use vstd::prelude::*;

verus! {

/// What the engines read of one decoded instruction.
#[derive(Clone, Copy, Debug, PartialEq, Eq, Structural)]
pub struct InstrInfo {
    /// The number of bytes that the decoder took.
    pub len: usize,
    /// Whether the bytes are no instruction.
    pub invalid: bool,
    /// Whether the instruction has a memory operand relative to the
    /// instruction pointer.
    pub ip_rel_memory: bool,
    /// The address of that operand.
    pub ip_rel_target: u64,
    /// The target of a near branch, and zero for every other instruction.
    pub near_branch_target: u64,
}

/// The base register of a memory operand, as far as the engines tell
/// registers apart.
#[derive(Clone, Copy, Debug, PartialEq, Eq, Structural)]
pub enum BaseRegister {
    Absent,
    Eip,
    Rip,
    Es,
    Cs,
    Ss,
    Ds,
    Fs,
    Gs,
    Other,
}

/// The kind of an operand, as far as the engines tell kinds apart.
#[derive(Clone, Copy, Debug, PartialEq, Eq, Structural)]
pub enum OperandKind {
    NearBranch16,
    NearBranch32,
    NearBranch64,
    FarBranch16,
    FarBranch32,
    Other,
}

/// Where the constants of an instruction stand among its bytes.
#[derive(Clone, Copy, Debug, PartialEq, Eq, Structural)]
pub struct ConstantSpans {
    /// Whether the instruction has a displacement.
    pub has_displacement: bool,
    /// The offset of the displacement from the start of the instruction.
    pub displacement_offset: usize,
    /// The number of bytes of the displacement.
    pub displacement_size: usize,
    /// Whether the instruction has an immediate.
    pub has_immediate: bool,
    /// The offset of the immediate from the start of the instruction.
    pub immediate_offset: usize,
    /// The number of bytes of the immediate.
    pub immediate_size: usize,
}

/// What the decoder reads off the front of `bytes`, in a mode of `bitness`
/// bits, as the instruction at address `ip`.
pub uninterp spec fn decoded(bitness: u32, bytes: Seq<u8>, ip: u64) -> InstrInfo;

/// The base register of the memory operand of that instruction.
pub uninterp spec fn decoded_memory_base(bitness: u32, bytes: Seq<u8>, ip: u64) -> BaseRegister;

/// The kind of the first operand of that instruction.
pub uninterp spec fn decoded_op0_kind(bitness: u32, bytes: Seq<u8>, ip: u64) -> OperandKind;

/// Where the constants of that instruction stand.
pub uninterp spec fn decoded_constants(bitness: u32, bytes: Seq<u8>, ip: u64) -> ConstantSpans;

/// A mode that the decoder knows.
pub open spec fn valid_bitness(bitness: u32) -> bool {
    bitness == 16 || bitness == 32 || bitness == 64
}

/// Decodes the instruction at `pos` of `bytes` with `iced_x86::Decoder`,
/// which is made by `Decoder::with_ip` on the bytes from `pos` up to `end`,
/// and reads the result through `Instruction::len`, `code`,
/// `is_ip_rel_memory_operand`, `ip_rel_memory_address` and
/// `near_branch_target`. The contract only names the answer; it claims
/// that the answer depends on nothing but the mode, those bytes and `ip`.
#[verifier::external_body]
pub(crate) fn decode_at(bitness: u32, bytes: &[u8], pos: usize, end: usize, ip: u64) -> (r: InstrInfo)
    requires
        valid_bitness(bitness),
        pos <= end <= bytes.len(),
    ensures
        r == decoded(bitness, bytes@.subrange(pos as int, end as int), ip),
{
    let mut d = Decoder::with_ip(bitness, &bytes[pos..end], ip, DecoderOptions::NONE);
    let i = d.decode();
    InstrInfo {
        len: i.len(),
        invalid: i.code() == Code::INVALID,
        ip_rel_memory: i.is_ip_rel_memory_operand(),
        ip_rel_target: i.ip_rel_memory_address(),
        near_branch_target: i.near_branch_target(),
    }
}

/// Decodes the instruction at `pos` of `bytes` as [`decode_at`] does and
/// tells its `Instruction::memory_base` apart. The contract only names
/// the answer.
#[verifier::external_body]
pub(crate) fn memory_base_at(
    bitness: u32,
    bytes: &[u8],
    pos: usize,
    end: usize,
    ip: u64,
) -> (r: BaseRegister)
    requires
        valid_bitness(bitness),
        pos <= end <= bytes.len(),
    ensures
        r == decoded_memory_base(bitness, bytes@.subrange(pos as int, end as int), ip),
{
    let mut d = Decoder::with_ip(bitness, &bytes[pos..end], ip, DecoderOptions::NONE);
    match d.decode().memory_base() {
        Register::None => BaseRegister::Absent,
        Register::EIP => BaseRegister::Eip,
        Register::RIP => BaseRegister::Rip,
        Register::ES => BaseRegister::Es,
        Register::CS => BaseRegister::Cs,
        Register::SS => BaseRegister::Ss,
        Register::DS => BaseRegister::Ds,
        Register::FS => BaseRegister::Fs,
        Register::GS => BaseRegister::Gs,
        _ => BaseRegister::Other,
    }
}

/// Decodes the instruction at `pos` of `bytes` as [`decode_at`] does and
/// tells its `Instruction::op0_kind` apart. The contract only names the
/// answer.
#[verifier::external_body]
pub(crate) fn op0_kind_at(bitness: u32, bytes: &[u8], pos: usize, end: usize, ip: u64) -> (r: OperandKind)
    requires
        valid_bitness(bitness),
        pos <= end <= bytes.len(),
    ensures
        r == decoded_op0_kind(bitness, bytes@.subrange(pos as int, end as int), ip),
{
    let mut d = Decoder::with_ip(bitness, &bytes[pos..end], ip, DecoderOptions::NONE);
    match d.decode().op0_kind() {
        OpKind::NearBranch16 => OperandKind::NearBranch16,
        OpKind::NearBranch32 => OperandKind::NearBranch32,
        OpKind::NearBranch64 => OperandKind::NearBranch64,
        OpKind::FarBranch16 => OperandKind::FarBranch16,
        OpKind::FarBranch32 => OperandKind::FarBranch32,
        _ => OperandKind::Other,
    }
}

/// Decodes the instruction at `pos` of `bytes` as [`decode_at`] does and
/// asks `Decoder::get_constant_offsets` where its displacement and its
/// immediate stand. The contract only names the answer.
#[verifier::external_body]
pub(crate) fn constants_at(
    bitness: u32,
    bytes: &[u8],
    pos: usize,
    end: usize,
    ip: u64,
) -> (r: ConstantSpans)
    requires
        valid_bitness(bitness),
        pos <= end <= bytes.len(),
    ensures
        r == decoded_constants(bitness, bytes@.subrange(pos as int, end as int), ip),
{
    let mut d = Decoder::with_ip(bitness, &bytes[pos..end], ip, DecoderOptions::NONE);
    let i = d.decode();
    let c = d.get_constant_offsets(&i);
    ConstantSpans {
        has_displacement: c.has_displacement(),
        displacement_offset: c.displacement_offset(),
        displacement_size: c.displacement_size(),
        has_immediate: c.has_immediate(),
        immediate_offset: c.immediate_offset(),
        immediate_size: c.immediate_size(),
    }
}

} // verus!
