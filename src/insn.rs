use vstd::prelude::*;

verus! {

/// How an instruction transfers control.
#[derive(Clone, Copy, Debug, PartialEq, Eq, Structural)]
pub enum TransferKind {
    /// No transfer: control continues with the next instruction.
    Plain,
    ConditionalBranch,
    UnconditionalBranch,
    Call,
    Return,
}

/// Why decoding failed at an address.
#[derive(Clone, Copy, Debug, PartialEq, Eq, Structural)]
pub enum DecodeError {
    /// The bytes at the address do not form a valid instruction.
    Invalid,
    /// Fewer bytes remain than the instruction needs.
    Truncated,
}

/// Discriminants of the decoder's `DecoderError`.
pub const DECODER_OK: u8 = 0;
pub const DECODER_NO_MORE_BYTES: u8 = 2;

/// Discriminants of the decoder's `FlowControl`.
pub const FLOW_UNCONDITIONAL_BRANCH: u8 = 1;
pub const FLOW_INDIRECT_BRANCH: u8 = 2;
pub const FLOW_CONDITIONAL_BRANCH: u8 = 3;
pub const FLOW_RETURN: u8 = 4;
pub const FLOW_CALL: u8 = 5;
pub const FLOW_INDIRECT_CALL: u8 = 6;

/// Discriminants of the decoder's `OpKind` for near branch operands
/// (16, 32 and 64 bit).
pub const OP_NEAR_BRANCH_FIRST: u8 = 1;
pub const OP_NEAR_BRANCH_LAST: u8 = 3;

/// What the decoder hands back for one instruction, as plain values: the
/// decoder error, the length, the flow-control class, the kind of the first
/// operand, and the near branch target.
#[derive(Clone, Copy, Debug, PartialEq, Eq, Structural)]
pub struct RawDecode {
    pub error: u8,
    pub len: u64,
    pub flow: u8,
    pub op0: u8,
    pub near_target: u64,
}

/// One decoded instruction.
#[derive(Clone, Copy, Debug, PartialEq, Eq, Structural)]
pub struct Insn {
    pub addr: u64,
    pub len: u64,
    pub kind: TransferKind,
    /// Destination of the transfer, when it is statically known.
    pub target: Option<u64>,
}

/// What the x86 decoder produces for the instruction at the front of `bytes`,
/// decoded at instruction pointer `ip` in the given bitness.
pub uninterp spec fn iced_decode(bytes: Seq<u8>, bitness: u32, ip: u64) -> RawDecode;

pub open spec fn is_valid_bitness(bitness: u32) -> bool {
    bitness == 32 || bitness == 64
}

/// Relies on iced_x86::Decoder (with_ip, decode, last_error) and on
/// Instruction::{len, flow_control, op0_kind, near_branch_target}: the result
/// depends on the bytes, the bitness and the address alone; a decoded
/// instruction takes at least one byte and no more bytes than remain.
#[verifier::external_body]
fn decode_raw(code: &Vec<u8>, offset: usize, bitness: u32, ip: u64) -> (r: RawDecode)
    requires
        offset < code@.len(),
        is_valid_bitness(bitness),
    ensures
        r == iced_decode(code@.subrange(offset as int, code@.len() as int), bitness, ip),
        r.error == DECODER_OK ==> 1 <= r.len <= code@.len() - offset,
{
    let mut decoder = iced_x86::Decoder::with_ip(bitness, &code[offset..], ip, iced_x86::DecoderOptions::NONE);
    let insn = decoder.decode();
    RawDecode {
        error: decoder.last_error() as u8,
        len: insn.len() as u64,
        flow: insn.flow_control() as u8,
        op0: insn.op0_kind() as u8,
        near_target: insn.near_branch_target(),
    }
}

/// Transfer kind of a decoder flow class. Interrupts, transactional
/// instructions and exceptions do not end a block.
pub open spec fn kind_of_flow(f: u8) -> TransferKind {
    if f == FLOW_UNCONDITIONAL_BRANCH || f == FLOW_INDIRECT_BRANCH {
        TransferKind::UnconditionalBranch
    } else if f == FLOW_CONDITIONAL_BRANCH {
        TransferKind::ConditionalBranch
    } else if f == FLOW_CALL || f == FLOW_INDIRECT_CALL {
        TransferKind::Call
    } else if f == FLOW_RETURN {
        TransferKind::Return
    } else {
        TransferKind::Plain
    }
}

/// Statically known target of a decoded instruction: only direct near
/// branches and calls have one.
pub open spec fn target_of_raw(r: RawDecode) -> Option<u64> {
    if OP_NEAR_BRANCH_FIRST <= r.op0 <= OP_NEAR_BRANCH_LAST && (r.flow == FLOW_UNCONDITIONAL_BRANCH
        || r.flow == FLOW_CONDITIONAL_BRANCH || r.flow == FLOW_CALL) {
        Some(r.near_target)
    } else {
        None
    }
}

/// The instruction, or the error, that a decoder outcome stands for at `addr`.
pub open spec fn classify_spec(r: RawDecode, addr: u64) -> Result<Insn, DecodeError> {
    if r.error == DECODER_OK {
        Ok(Insn { addr, len: r.len, kind: kind_of_flow(r.flow), target: target_of_raw(r) })
    } else if r.error == DECODER_NO_MORE_BYTES {
        Err(DecodeError::Truncated)
    } else {
        Err(DecodeError::Invalid)
    }
}

/// Turns a decoder outcome into an instruction at `addr`, or the decode error.
pub fn classify(r: RawDecode, addr: u64) -> (res: Result<Insn, DecodeError>)
    ensures
        res == classify_spec(r, addr),
{
    if r.error == DECODER_OK {
        let f = r.flow;
        let kind = if f == FLOW_UNCONDITIONAL_BRANCH || f == FLOW_INDIRECT_BRANCH {
            TransferKind::UnconditionalBranch
        } else if f == FLOW_CONDITIONAL_BRANCH {
            TransferKind::ConditionalBranch
        } else if f == FLOW_CALL || f == FLOW_INDIRECT_CALL {
            TransferKind::Call
        } else if f == FLOW_RETURN {
            TransferKind::Return
        } else {
            TransferKind::Plain
        };
        let direct = f == FLOW_UNCONDITIONAL_BRANCH || f == FLOW_CONDITIONAL_BRANCH || f == FLOW_CALL;
        let target = if OP_NEAR_BRANCH_FIRST <= r.op0 && r.op0 <= OP_NEAR_BRANCH_LAST && direct {
            Some(r.near_target)
        } else {
            None
        };
        Ok(Insn { addr, len: r.len, kind, target })
    } else if r.error == DECODER_NO_MORE_BYTES {
        Err(DecodeError::Truncated)
    } else {
        Err(DecodeError::Invalid)
    }
}

/// A byte buffer placed at a base address, decoded in one bitness.
pub struct CodeRegion {
    pub code: Vec<u8>,
    pub base: u64,
    pub bitness: u32,
}

impl CodeRegion {
    pub open spec fn wf(&self) -> bool {
        &&& is_valid_bitness(self.bitness)
        &&& self.base + self.code@.len() <= u64::MAX
    }

    /// One past the last address of the region.
    pub open spec fn limit(&self) -> int {
        self.base + self.code@.len()
    }

    pub open spec fn contains(&self, addr: int) -> bool {
        self.base <= addr < self.limit()
    }

    /// The instruction, or the error, found at `addr`.
    pub open spec fn decode_spec(&self, addr: u64) -> Result<Insn, DecodeError> {
        if !self.contains(addr as int) {
            Err(DecodeError::Truncated)
        } else {
            classify_spec(
                iced_decode(
                    self.code@.subrange(addr - self.base, self.code@.len() as int),
                    self.bitness,
                    addr,
                ),
                addr,
            )
        }
    }

    /// Whether `addr` lies in the region and decoding there would not run
    /// out of bytes; an undecodable opcode is reported by `decode_at`.
    pub open spec fn can_decode_spec(&self, addr: u64) -> bool {
        self.decode_spec(addr) != Err::<Insn, DecodeError>(DecodeError::Truncated)
    }

    /// Decodes the instruction at `addr`.
    pub fn decode_at(&self, addr: u64) -> (r: Result<Insn, DecodeError>)
        requires
            self.wf(),
        ensures
            r == self.decode_spec(addr),
            r matches Ok(i) ==> i.addr == addr && i.len >= 1 && addr + i.len <= self.limit(),
    {
        if addr < self.base || addr - self.base >= self.code.len() as u64 {
            return Err(DecodeError::Truncated);
        }
        let offset = (addr - self.base) as usize;
        let raw = decode_raw(&self.code, offset, self.bitness, addr);
        classify(raw, addr)
    }

    /// Whether decoding at `addr` stays within the region's bytes.
    pub fn can_decode(&self, addr: u64) -> (r: bool)
        requires
            self.wf(),
        ensures
            r == self.can_decode_spec(addr),
    {
        match self.decode_at(addr) {
            Err(DecodeError::Truncated) => false,
            _ => true,
        }
    }
}

} // verus!
