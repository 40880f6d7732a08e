//! The meaning of disassembly: what reading the hexadecimal input yields,
//! what each instruction form decodes to, and what a whole run produces.
//!
//! Positions count characters (bytes) of the hexadecimal text; one machine
//! byte takes two of them.
use vstd::prelude::*;
use vstd::utf8::*;
use crate::hex::{
    alt_hex, decimal_text, hex_digit_value, hex_digits_value, lemma_pow256_values,
    lemma_swap_bytes_bound, parse_radix16, pow256, swap_bytes,
};
use crate::operand::{
    extended, is_segment_override, mode_of, register_text, rex_of, segment_override_text,
    sib_base_text, sib_index_text, sib_scale, AddressingMode, OperandEncoding, OperandSize, Prefix,
};

verus! {

/// The inputs on which decoding cannot go on: each stands for a place where
/// the decoding would otherwise stop the program.
#[derive(Debug, Clone, Copy, PartialEq, Eq, Structural)]
pub enum Fault {
    /// An opcode outside the supported subset; `escape` when it follows 0x0f.
    Unimplemented { escape: bool, opcode: u8 },
    /// A byte that an instruction needs could not be read: the input ended
    /// or did not hold hexadecimal digits there.
    MissingOperand,
    /// A register/memory opcode that the decoder reaches but does not handle.
    Unreachable,
    /// An integer overflow in position or address arithmetic.
    Overflow,
    /// A read that would cut a multi-byte character of the input.
    NotCharBoundary,
    /// A memory operand with no register and a zero displacement.
    EmptyDisplacement,
}

/// Why a read of the input failed.
#[derive(Debug, Clone, Copy, PartialEq, Eq, Structural)]
pub enum ReadError {
    /// The input ends before the bytes asked for.
    Eof,
    /// The characters there are not a hexadecimal number.
    InvalidDigit,
    Fault(Fault),
}

/// Reading `n` machine bytes at position `cur` of the text `bytes`: the
/// `2n` characters there, parsed as a hexadecimal number, taken as a
/// little-endian value.
pub open spec fn read_value(bytes: Seq<u8>, cur: int, n: nat) -> Result<nat, ReadError> {
    let end = cur + 2 * n;
    if cur < 0 || end > usize::MAX {
        Err(ReadError::Fault(Fault::Overflow))
    } else if end > bytes.len() {
        Err(ReadError::Eof)
    } else if !is_char_boundary(bytes, cur) || !is_char_boundary(bytes, end) {
        Err(ReadError::Fault(Fault::NotCharBoundary))
    } else {
        match parse_radix16(bytes.subrange(cur, end)) {
            Some(v) => Ok(swap_bytes(v, n)),
            None => Err(ReadError::InvalidDigit),
        }
    }
}

/// A read that the instruction cannot do without.
pub open spec fn take(bytes: Seq<u8>, cur: int, n: nat) -> Result<(int, nat), Fault> {
    match read_value(bytes, cur, n) {
        Ok(v) => Ok((cur + 2 * n, v)),
        Err(ReadError::Fault(f)) => Err(f),
        Err(_) => Err(Fault::MissingOperand),
    }
}

/// `v`, an `n`-byte value, read as a two's complement signed number.
pub open spec fn sign_extend(v: nat, n: nat) -> int {
    if 2 * v >= pow256(n) {
        v - pow256(n)
    } else {
        v as int
    }
}

/// The `n`-byte two's complement pattern of `v`.
pub open spec fn twos_complement(v: int, n: nat) -> nat {
    if v < 0 {
        (v + pow256(n)) as nat
    } else {
        v as nat
    }
}

/// An immediate of `bits` bits, sign-extended.
pub open spec fn take_imm(bytes: Seq<u8>, cur: int, bits: u8) -> Result<(int, int), Fault> {
    let n = (bits / 8) as nat;
    match take(bytes, cur, n) {
        Ok((c, v)) => Ok((c, sign_extend(v, n))),
        Err(f) => Err(f),
    }
}

/// A displacement as it follows a base: `+0x..`, `-0x..` or nothing.
pub open spec fn displacement_text(d: int) -> Seq<char> {
    if d < 0 {
        "-"@ + alt_hex((-d) as nat)
    } else if d > 0 {
        "+"@ + alt_hex(d as nat)
    } else {
        ""@
    }
}

/// A memory operand `segment[base+index*scale+disp]` from a SIB byte; none
/// where it has neither register nor displacement.
pub open spec fn sib_memory_text(
    segment: Seq<char>,
    scale: u8,
    index: Seq<char>,
    base: Seq<char>,
    d: int,
) -> Option<Seq<char>> {
    let scale_str = if index.len() > 0 {
        index + "*"@ + decimal_text(scale as nat)
    } else {
        ""@
    };
    let disp = displacement_text(d);
    let rm = if scale_str.len() > 0 {
        if base.len() == 0 {
            scale_str
        } else {
            base + "+"@ + scale_str
        }
    } else {
        base
    };
    if rm.len() == 0 {
        // The displacement alone is written without its sign.
        if disp.len() == 0 {
            None
        } else {
            Some(segment + "["@ + disp.drop_first() + "]"@)
        }
    } else {
        Some(segment + "["@ + rm + disp + "]"@)
    }
}

/// A memory operand relative to the instruction pointer.
pub open spec fn rip_text(offset: int) -> Seq<char> {
    if offset < 0 {
        "[rip-"@ + alt_hex((-offset) as nat) + "]"@
    } else {
        "[rip+"@ + alt_hex(offset as nat) + "]"@
    }
}

/// A memory operand `segment[base+disp]`.
pub open spec fn based_text(segment: Seq<char>, base: Seq<char>, d: int) -> Seq<char> {
    segment + "["@ + base + displacement_text(d) + "]"@
}

/// The `reg` field of a ModRM byte, extended by REX.R.
pub open spec fn modrm_reg(byte: u8, prefix: Prefix) -> u8 {
    match prefix.rex {
        Some(r) => extended(r.r, (byte / 8) % 8),
        None => (byte / 8) % 8,
    }
}

/// The `rm` field of a ModRM byte, extended by REX.B.
pub open spec fn modrm_rm(byte: u8, prefix: Prefix) -> u8 {
    match prefix.rex {
        Some(r) => extended(r.b, byte % 8),
        None => byte % 8,
    }
}

/// The width of addresses: 32 bits after 0x67, else 64.
pub open spec fn address_size(prefix: Prefix) -> OperandSize {
    if prefix.has_0x67 {
        OperandSize::Size32Bit
    } else {
        OperandSize::Size64Bit
    }
}

/// The memory operand addressed through a SIB byte read at `cur`, with the
/// displacement after it.
pub open spec fn sib_operand(bytes: Seq<u8>, cur: int, mode: AddressingMode, prefix: Prefix) -> Result<
    (int, Seq<char>),
    Fault,
> {
    let addr = address_size(prefix);
    match take(bytes, cur, 1) {
        Err(f) => Err(f),
        Ok((c1, sib_value)) => {
            let sib = sib_value as u8;
            let base = sib_base_text(sib, prefix, mode, addr);
            let disp = if base.len() == 0 && mode == AddressingMode::Memory {
                take_imm(bytes, c1, 32)
            } else if mode.disp_bits() != 0 {
                take_imm(bytes, c1, mode.disp_bits())
            } else {
                Ok((c1, 0int))
            };
            match disp {
                Err(f) => Err(f),
                Ok((c2, d)) => match sib_memory_text(
                    prefix.segment_override@,
                    sib_scale(sib),
                    sib_index_text(sib, prefix, addr),
                    base,
                    d,
                ) {
                    Some(text) => Ok((c2, text)),
                    None => Err(Fault::EmptyDisplacement),
                },
            }
        },
    }
}

/// The memory operand relative to the instruction pointer, whose 32-bit
/// offset is read at `cur`.
pub open spec fn rip_operand(bytes: Seq<u8>, cur: int) -> Result<(int, Seq<char>), Fault> {
    match take(bytes, cur, 4) {
        Err(f) => Err(f),
        Ok((c1, v)) => {
            let offset = sign_extend(v, 4);
            if offset == -0x8000_0000 {
                Err(Fault::Overflow)
            } else {
                Ok((c1, rip_text(offset)))
            }
        },
    }
}

/// The memory operand based on register `rm`, with the displacement that
/// `mode` calls for read at `cur`.
pub open spec fn based_operand(
    bytes: Seq<u8>,
    cur: int,
    mode: AddressingMode,
    rm: u8,
    prefix: Prefix,
) -> Result<(int, Seq<char>), Fault> {
    let disp = if mode.disp_bits() != 0 {
        take_imm(bytes, cur, mode.disp_bits())
    } else {
        Ok((cur, 0int))
    };
    match disp {
        Err(f) => Err(f),
        Ok((c1, d)) => Ok(
            (
                c1,
                based_text(
                    prefix.segment_override@,
                    register_text(rm, address_size(prefix), prefix.rex is Some),
                    d,
                ),
            ),
        ),
    }
}

/// The memory operand that the ModRM byte `byte` (whose mode is not
/// register-to-register) and the bytes from `cur` on encode.
pub open spec fn memory_operand(bytes: Seq<u8>, cur: int, byte: u8, prefix: Prefix) -> Result<
    (int, Seq<char>),
    Fault,
> {
    let mode = mode_of(byte);
    let rm = modrm_rm(byte, prefix);
    if rm % 8 == 4 {
        sib_operand(bytes, cur, mode, prefix)
    } else if rm == 5 && mode == AddressingMode::Memory {
        rip_operand(bytes, cur)
    } else {
        based_operand(bytes, cur, mode, rm, prefix)
    }
}

/// The register operand and the register-or-memory operand that the ModRM
/// byte `byte` and the bytes after it (from `cur` on) encode, with the
/// position after them.
pub open spec fn modrm_operands(
    bytes: Seq<u8>,
    cur: int,
    byte: u8,
    prefix: Prefix,
    size: OperandSize,
) -> Result<(int, Seq<char>, Seq<char>), Fault> {
    let has_rex = prefix.rex is Some;
    let reg = register_text(modrm_reg(byte, prefix), size, has_rex);
    if mode_of(byte) == AddressingMode::RegisterToRegister {
        Ok((cur, reg, register_text(modrm_rm(byte, prefix), size, has_rex)))
    } else {
        match memory_operand(bytes, cur, byte, prefix) {
            Err(f) => Err(f),
            Ok((c, rm)) => Ok((c, reg, rm)),
        }
    }
}

/// `op reg, rm` or `op rm, reg`.
pub open spec fn format_instruction(
    op: Seq<char>,
    reg: Seq<char>,
    rm: Seq<char>,
    encoding: OperandEncoding,
) -> Seq<char> {
    if encoding == OperandEncoding::MR {
        op + " "@ + rm + ", "@ + reg
    } else {
        op + " "@ + reg + ", "@ + rm
    }
}

/// A two-operand instruction with a ModRM byte: the 8-bit forms `bit8_mr`
/// and `bit8_rm`, and the forms `bit32_mr` and `bit32_rm` whose width the
/// prefixes choose.
pub open spec fn reg_rm_instruction(
    bytes: Seq<u8>,
    cur: int,
    name: Seq<char>,
    opcode: u8,
    prefix: Prefix,
    bit8_mr: u8,
    bit8_rm: u8,
    bit32_mr: u8,
    bit32_rm: u8,
) -> Result<(int, Seq<char>), Fault> {
    match take(bytes, cur, 1) {
        Err(f) => Err(f),
        Ok((c1, b)) => {
            if opcode == bit8_mr || opcode == bit8_rm || opcode == bit32_mr || opcode == bit32_rm {
                let size = if opcode == bit8_mr || opcode == bit8_rm {
                    OperandSize::Size8Bit
                } else {
                    prefix.operand_size()
                };
                let encoding = if opcode == bit8_mr || opcode == bit32_mr {
                    OperandEncoding::MR
                } else {
                    OperandEncoding::RM
                };
                match modrm_operands(bytes, c1, b as u8, prefix, size) {
                    Err(f) => Err(f),
                    Ok((c2, reg, rm)) => Ok((c2, format_instruction(name, reg, rm, encoding))),
                }
            } else {
                Err(Fault::Unreachable)
            }
        },
    }
}

/// `mov reg, imm` (0xb0 to 0xbf).
pub open spec fn mov_imm_instruction(bytes: Seq<u8>, cur: int, opcode: u8, prefix: Prefix) -> Result<
    (int, Seq<char>),
    Fault,
> {
    let low: u8 = if opcode < 0xb8 {
        (opcode - 0xb0) as u8
    } else {
        (opcode - 0xb8) as u8
    };
    let size = if opcode < 0xb8 {
        OperandSize::Size8Bit
    } else {
        prefix.operand_size()
    };
    let reg = match prefix.rex {
        Some(r) => extended(r.b, low),
        None => low,
    };
    match take_imm(bytes, cur, size.immediate_bits(true)) {
        Err(f) => Err(f),
        Ok((c, imm)) => Ok(
            (
                c,
                "mov "@ + register_text(reg, size, prefix.rex is Some) + ", "@ + alt_hex(
                    twos_complement(imm, 8),
                ),
            ),
        ),
    }
}

/// `lea reg, mem` (0x8d).
pub open spec fn lea_instruction(bytes: Seq<u8>, cur: int, prefix: Prefix) -> Result<
    (int, Seq<char>),
    Fault,
> {
    match take(bytes, cur, 1) {
        Err(f) => Err(f),
        Ok((c1, b)) => match modrm_operands(bytes, c1, b as u8, prefix, prefix.operand_size()) {
            Err(f) => Err(f),
            Ok((c2, reg, rm)) => Ok((c2, "lea "@ + reg + ", "@ + rm)),
        },
    }
}

/// The operation of the group 1 instruction 0x83, by the ModRM `reg` field.
pub open spec fn alu_name(op: u8) -> Seq<char> {
    if op == 0 {
        "add"@
    } else if op == 1 {
        "or"@
    } else if op == 2 {
        "adc"@
    } else if op == 3 {
        "sbb"@
    } else if op == 4 {
        "and"@
    } else if op == 5 {
        "sub"@
    } else if op == 6 {
        "xor"@
    } else {
        "cmp"@
    }
}

/// `op reg, imm8` (0x83); the `rm` field always names a register.
pub open spec fn alu_instruction(bytes: Seq<u8>, cur: int, prefix: Prefix) -> Result<
    (int, Seq<char>),
    Fault,
> {
    match take(bytes, cur, 1) {
        Err(f) => Err(f),
        Ok((c1, b)) => {
            let byte = b as u8;
            let rm = match prefix.rex {
                Some(r) => extended(r.b, byte % 8),
                None => byte % 8,
            };
            let rm_text = register_text(rm, prefix.operand_size(), prefix.rex is Some);
            match take_imm(bytes, c1, 8) {
                Err(f) => Err(f),
                Ok((c2, imm)) => Ok(
                    (
                        c2,
                        alu_name((byte / 8) % 8) + " "@ + rm_text + ", "@ + alt_hex(
                            twos_complement(imm, 1),
                        ),
                    ),
                ),
            }
        },
    }
}

/// The mnemonic of a conditional jump by its condition code.
pub open spec fn jcc_name(op: u8) -> Seq<char> {
    if op == 0x0 {
        "jo"@
    } else if op == 0x1 {
        "jno"@
    } else if op == 0x2 {
        "jb"@
    } else if op == 0x3 {
        "jnb"@
    } else if op == 0x4 {
        "je"@
    } else if op == 0x5 {
        "jne"@
    } else if op == 0x6 {
        "jbe"@
    } else if op == 0x7 {
        "ja"@
    } else if op == 0x8 {
        "js"@
    } else if op == 0x9 {
        "jns"@
    } else if op == 0xa {
        "jp"@
    } else if op == 0xb {
        "jnp"@
    } else if op == 0xc {
        "jl"@
    } else if op == 0xd {
        "jge"@
    } else if op == 0xe {
        "jle"@
    } else {
        "jg"@
    }
}

/// A conditional jump with a `bits`-bit displacement: its target is the
/// base address plus the address of the next instruction plus the
/// displacement, in unsigned 64-bit arithmetic that must not overflow.
pub open spec fn jcc_instruction(bytes: Seq<u8>, base: u64, cur: int, op: u8, bits: u8) -> Result<
    (int, Seq<char>),
    Fault,
> {
    match take_imm(bytes, cur, bits) {
        Err(f) => Err(f),
        Ok((c, d)) => {
            let start = base + c / 2;
            let target = start + twos_complement(d, 8);
            if start > u64::MAX || target > u64::MAX {
                Err(Fault::Overflow)
            } else {
                Ok((c, jcc_name(op) + " "@ + alt_hex(target as nat)))
            }
        },
    }
}

/// `call rel32`: the target wraps around 64 bits once the base address and
/// the position are added.
pub open spec fn call_instruction(bytes: Seq<u8>, base: u64, cur: int) -> Result<
    (int, Seq<char>),
    Fault,
> {
    match take_imm(bytes, cur, 32) {
        Err(f) => Err(f),
        Ok((c, d)) => {
            let start = base + c / 2;
            if start > u64::MAX {
                Err(Fault::Overflow)
            } else {
                let sum = start + twos_complement(d, 8);
                let target = if sum > u64::MAX {
                    sum - 0x1_0000_0000_0000_0000
                } else {
                    sum
                };
                Ok((c, "call "@ + alt_hex(target as nat)))
            }
        },
    }
}

/// The register that `push` (0x50 to 0x58) names.
pub open spec fn push_register(opcode: u8, prefix: Prefix) -> u8 {
    let low = (opcode - 0x50) as u8;
    match prefix.rex {
        Some(r) => extended(r.b, low),
        None => low,
    }
}

/// `push reg`: only 64-bit, or 16-bit after 0x66.
pub open spec fn push_text(opcode: u8, prefix: Prefix) -> Seq<char> {
    let size = if prefix.has_0x66 {
        OperandSize::Size16Bit
    } else {
        OperandSize::Size64Bit
    };
    "push "@ + register_text(push_register(opcode, prefix), size, prefix.rex is Some)
}

/// What one pass of the decoding loop does.
pub enum Step {
    /// The input is exhausted.
    Eof,
    /// The input holds something other than hexadecimal digits; the message.
    Failed(Seq<char>),
    Crash(Fault),
    /// A prefix was read; decoding goes on from the position with the prefixes.
    Prefix(int, Prefix),
    /// An instruction was read; decoding goes on from the position.
    Instruction(int, Seq<char>),
}

/// An instruction parser's result as a step.
pub open spec fn instruction_step(r: Result<(int, Seq<char>), Fault>) -> Step {
    match r {
        Ok((c, text)) => Step::Instruction(c, text),
        Err(f) => Step::Crash(f),
    }
}

/// The error message for characters at `cur` that are not hexadecimal.
pub open spec fn invalid_digit_message(bytes: Seq<u8>, cur: int) -> Seq<char> {
    "Failed to parse byte, err: "@ + "invalid digit found in string: input: "@ + decode_utf8(
        bytes.subrange(cur, cur + 2),
    )
}

/// The position after a read of one byte at `cur`, whether it succeeded or
/// not.
pub open spec fn after_read(r: Result<nat, ReadError>, cur: int) -> int {
    if r is Ok {
        cur + 2
    } else {
        cur
    }
}

/// `((cur as i64) + delta) as usize`, or none where the signed sum
/// overflows.
pub open spec fn shifted_position(cur: int, delta: int) -> Option<int> {
    let signed = if cur > i64::MAX {
        cur - 0x1_0000_0000_0000_0000
    } else {
        cur
    };
    let s = signed + delta;
    if s < i64::MIN || s > i64::MAX {
        None
    } else {
        Some(s % (usize::MAX + 1))
    }
}

/// After 0xf3: `endbr64` when the next three bytes are 0f 1e fa; otherwise
/// the position goes back three characters from where the three reads left
/// it, and 0xf3 stays a prefix.
pub open spec fn repeat_prefix_step(bytes: Seq<u8>, cur: int, prefix: Prefix) -> Step {
    let r1 = read_value(bytes, cur, 1);
    let c1 = after_read(r1, cur);
    let r2 = read_value(bytes, c1, 1);
    let c2 = after_read(r2, c1);
    let r3 = read_value(bytes, c2, 1);
    let c3 = after_read(r3, c2);
    match (r1, r2, r3) {
        (Err(ReadError::Fault(f)), _, _) => Step::Crash(f),
        (_, Err(ReadError::Fault(f)), _) => Step::Crash(f),
        (_, _, Err(ReadError::Fault(f))) => Step::Crash(f),
        _ => if r1 == Ok::<nat, ReadError>(0x0f) && r2 == Ok::<nat, ReadError>(0x1e) && r3 == Ok::<
            nat,
            ReadError,
        >(0xfa) {
            Step::Instruction(c3, "endbr64"@)
        } else {
            match shifted_position(c3, -3) {
                Some(c) => Step::Prefix(c, prefix),
                None => Step::Crash(Fault::Overflow),
            }
        },
    }
}

/// The step for the byte `byte`, read at the position before `cur`.
pub open spec fn dispatch(bytes: Seq<u8>, base: u64, cur: int, byte: u8, prefix: Prefix) -> Step {
    if byte == 0x0f {
        match take(bytes, cur, 1) {
            Err(f) => Step::Crash(f),
            Ok((c, op)) => if 0x80 <= op <= 0x8f {
                instruction_step(jcc_instruction(bytes, base, c, (op - 0x80) as u8, 32))
            } else {
                Step::Crash(Fault::Unimplemented { escape: true, opcode: op as u8 })
            },
        }
    } else if is_segment_override(byte) {
        Step::Prefix(cur, Prefix { segment_override: segment_override_text(byte), ..prefix })
    } else if 0x28 <= byte <= 0x2b {
        instruction_step(
            reg_rm_instruction(bytes, cur, "sub"@, byte, prefix, 0x28, 0x2a, 0x29, 0x2b),
        )
    } else if 0x30 <= byte <= 0x33 {
        instruction_step(
            reg_rm_instruction(bytes, cur, "xor"@, byte, prefix, 0x30, 0x32, 0x31, 0x33),
        )
    } else if 0x40 <= byte <= 0x4f {
        Step::Prefix(cur, Prefix { rex: Some(rex_of(byte)), ..prefix })
    } else if 0x50 <= byte <= 0x58 {
        Step::Instruction(cur, push_text(byte, prefix))
    } else if byte == 0x66 {
        Step::Prefix(cur, Prefix { has_0x66: true, ..prefix })
    } else if byte == 0x67 {
        Step::Prefix(cur, Prefix { has_0x67: true, ..prefix })
    } else if 0x70 <= byte <= 0x7f {
        instruction_step(jcc_instruction(bytes, base, cur, (byte - 0x70) as u8, 8))
    } else if byte == 0x83 {
        instruction_step(alu_instruction(bytes, cur, prefix))
    } else if (0x88 <= byte <= 0x8c) || byte == 0x8e {
        instruction_step(
            reg_rm_instruction(bytes, cur, "mov"@, byte, prefix, 0x88, 0x8a, 0x89, 0x8b),
        )
    } else if byte == 0x8d {
        instruction_step(lea_instruction(bytes, cur, prefix))
    } else if 0xb0 <= byte <= 0xbf {
        instruction_step(mov_imm_instruction(bytes, cur, byte, prefix))
    } else if byte == 0xc3 {
        Step::Instruction(cur, "ret"@)
    } else if byte == 0xc9 {
        Step::Instruction(cur, "leave"@)
    } else if byte == 0xe8 {
        instruction_step(call_instruction(bytes, base, cur))
    } else if 0xf0 <= byte <= 0xf3 {
        let p = Prefix { group1_prefix: Some(byte), ..prefix };
        if byte == 0xf3 {
            repeat_prefix_step(bytes, cur, p)
        } else {
            Step::Prefix(cur, p)
        }
    } else {
        Step::Crash(Fault::Unimplemented { escape: false, opcode: byte })
    }
}

/// One pass of the decoding loop at position `cur`.
pub open spec fn step(bytes: Seq<u8>, base: u64, cur: int, prefix: Prefix) -> Step {
    match read_value(bytes, cur, 1) {
        Err(ReadError::Fault(f)) => Step::Crash(f),
        Err(ReadError::Eof) => Step::Eof,
        Err(ReadError::InvalidDigit) => Step::Failed(invalid_digit_message(bytes, cur)),
        Ok(v) => dispatch(bytes, base, cur + 2, v as u8, prefix),
    }
}

/// The text so far with one more instruction on a line of its own.
pub open spec fn push_line(text: Seq<char>, instruction: Seq<char>) -> Seq<char> {
    if text.len() == 0 {
        instruction
    } else {
        text + "\n"@ + instruction
    }
}

/// How a whole run ends.
pub enum Outcome {
    /// The result (the listing, or the error message) and the final position.
    Finished(Result<Seq<char>, Seq<char>>, int),
    Crashed(Fault),
}

/// A measure that every pass of the decoding loop lowers: positions only
/// move forward, except that the 0xf3 case may step back by one character,
/// and never twice in a row (the character before a 0xf3 byte's `3` is an
/// `f`, and a byte ending in `f` is not 0xf3).
pub open spec fn progress(bytes: Seq<u8>, cur: int) -> nat {
    if 0 <= cur <= bytes.len() {
        let slack: int = if cur + 1 < bytes.len() && hex_digit_value(bytes[cur + 1]) == Some(
            15nat,
        ) {
            3
        } else {
            0
        };
        (2 * (bytes.len() - cur) + 4 - slack) as nat
    } else {
        0
    }
}

/// The rest of a run from position `cur` with the prefixes `prefix` read
/// and the listing `text` written so far.
pub open spec fn run(bytes: Seq<u8>, base: u64, cur: int, prefix: Prefix, text: Seq<char>) -> Outcome
    decreases progress(bytes, cur),
{
    proof {
        lemma_step_progress(bytes, base, cur, prefix);
    }
    match step(bytes, base, cur, prefix) {
        Step::Eof => Outcome::Finished(Ok(text), cur),
        Step::Failed(msg) => Outcome::Finished(Err(msg), cur),
        Step::Crash(f) => Outcome::Crashed(f),
        Step::Prefix(c, p) => run(bytes, base, c, p, text),
        Step::Instruction(c, t) => run(bytes, base, c, Prefix::empty(), push_line(text, t)),
    }
}

/// A run from position `cur` with nothing read or written yet.
pub open spec fn disassembly(bytes: Seq<u8>, base: u64, cur: int) -> Outcome {
    run(bytes, base, cur, Prefix::empty(), Seq::empty())
}

/// Every instruction parser that succeeds moves forward and stays inside
/// the input.
pub proof fn lemma_instructions_advance(
    bytes: Seq<u8>,
    base: u64,
    cur: int,
    byte: u8,
    op: u8,
    prefix: Prefix,
)
    requires
        cur <= bytes.len(),
    ensures
        reg_rm_instruction(bytes, cur, "sub"@, byte, prefix, 0x28, 0x2a, 0x29, 0x2b) matches Ok(
            (c, _),
        ) ==> cur <= c <= bytes.len(),
        reg_rm_instruction(bytes, cur, "xor"@, byte, prefix, 0x30, 0x32, 0x31, 0x33) matches Ok(
            (c, _),
        ) ==> cur <= c <= bytes.len(),
        reg_rm_instruction(bytes, cur, "mov"@, byte, prefix, 0x88, 0x8a, 0x89, 0x8b) matches Ok(
            (c, _),
        ) ==> cur <= c <= bytes.len(),
        lea_instruction(bytes, cur, prefix) matches Ok((c, _)) ==> cur <= c <= bytes.len(),
        alu_instruction(bytes, cur, prefix) matches Ok((c, _)) ==> cur <= c <= bytes.len(),
        mov_imm_instruction(bytes, cur, byte, prefix) matches Ok((c, _)) ==> cur <= c
            <= bytes.len(),
        call_instruction(bytes, base, cur) matches Ok((c, _)) ==> cur <= c <= bytes.len(),
        jcc_instruction(bytes, base, cur, op, 8) matches Ok((c, _)) ==> cur <= c <= bytes.len(),
        jcc_instruction(bytes, base, cur, op, 32) matches Ok((c, _)) ==> cur <= c <= bytes.len(),
{
}

/// A byte read as 0xf3 was spelled by the characters `f3` (or `F3`).
pub proof fn lemma_f3_spelling(bytes: Seq<u8>, cur: int)
    requires
        read_value(bytes, cur, 1) == Ok::<nat, ReadError>(0xf3),
    ensures
        0 <= cur,
        cur + 2 <= bytes.len(),
        hex_digit_value(bytes[cur]) == Some(15nat),
        hex_digit_value(bytes[cur + 1]) == Some(3nat),
{
    let sub = bytes.subrange(cur, cur + 2);
    let v = parse_radix16(sub).unwrap();
    lemma_pow256_values();
    assert(swap_bytes(v, 1) == v % 256) by {
        reveal_with_fuel(swap_bytes, 2);
    }
    reveal_with_fuel(hex_digits_value, 3);
    if sub[0] == 0x2b {
        let d = sub.drop_first();
        assert(d.drop_last() =~= Seq::<u8>::empty());
        assert(hex_digit_value(d[0]) is Some);
        assert(v < 16);
    } else {
        assert(sub.drop_last().drop_last() =~= Seq::<u8>::empty());
        assert(sub.drop_last().last() == sub[0]);
        assert(hex_digit_value(sub[0]) is Some);
        assert(hex_digit_value(sub[1]) is Some);
        assert(bytes[cur] == sub[0]);
        assert(bytes[cur + 1] == sub[1]);
    }
}

/// `s % m` for `s` within one period of zero.
pub proof fn lemma_wrap(s: int, m: int)
    requires
        m > 0,
        -m <= s < m,
    ensures
        s % m == (if s < 0 {
            s + m
        } else {
            s
        }),
{
    if s < 0 {
        assert(s % m == s + m) by (nonlinear_arith)
            requires
                m > 0,
                -m <= s < 0,
        ;
    } else {
        assert(s % m == s) by (nonlinear_arith)
            requires
                m > 0,
                0 <= s < m,
        ;
    }
}

pub proof fn lemma_repeat_prefix_progress(bytes: Seq<u8>, cur: int, prefix: Prefix)
    requires
        0 <= cur,
        cur + 2 <= bytes.len(),
        cur + 2 <= usize::MAX,
        hex_digit_value(bytes[cur]) == Some(15nat),
        hex_digit_value(bytes[cur + 1]) == Some(3nat),
    ensures
        match repeat_prefix_step(bytes, cur + 2, prefix) {
            Step::Prefix(c, _) => progress(bytes, c) < progress(bytes, cur),
            Step::Instruction(c, _) => progress(bytes, c) < progress(bytes, cur),
            _ => true,
        },
{
    let c = cur + 2;
    let r1 = read_value(bytes, c, 1);
    let c1 = after_read(r1, c);
    let r2 = read_value(bytes, c1, 1);
    let c2 = after_read(r2, c1);
    let r3 = read_value(bytes, c2, 1);
    let c3 = after_read(r3, c2);
    assert(c <= c3 <= bytes.len() && c3 <= usize::MAX);
    assert(c3 == c || c3 >= c + 2);
    let m = usize::MAX + 1;
    assert(usize::MAX == 0xffff_ffff || usize::MAX == 0xffff_ffff_ffff_ffff);
    if let Some(n) = shifted_position(c3, -3) {
        let signed = if c3 > i64::MAX {
            c3 - 0x1_0000_0000_0000_0000
        } else {
            c3
        };
        lemma_wrap(signed - 3, m);
        if c3 == c {
            if cur == 0 {
                assert(n == usize::MAX);
            } else {
                assert(n == cur - 1);
            }
        } else {
            assert(n == c3 - 3);
        }
    }
}

pub proof fn lemma_step_progress(bytes: Seq<u8>, base: u64, cur: int, prefix: Prefix)
    ensures
        match step(bytes, base, cur, prefix) {
            Step::Prefix(c, _) => progress(bytes, c) < progress(bytes, cur),
            Step::Instruction(c, _) => progress(bytes, c) < progress(bytes, cur),
            _ => true,
        },
{
    if let Ok(v) = read_value(bytes, cur, 1) {
        let c = cur + 2;
        let num = parse_radix16(bytes.subrange(cur, c)).unwrap();
        lemma_swap_bytes_bound(num, 1);
        lemma_pow256_values();
        let byte = v as u8;
        lemma_instructions_advance(bytes, base, c, byte, (byte - 0x70) as u8, prefix);
        if byte == 0x0f {
            if let Ok((c2, op)) = take(bytes, c, 1) {
                lemma_instructions_advance(bytes, base, c2, byte, (op - 0x80) as u8, prefix);
            }
        }
        if byte == 0xf3 {
            lemma_f3_spelling(bytes, cur);
            lemma_repeat_prefix_progress(
                bytes,
                cur,
                Prefix { group1_prefix: Some(byte), ..prefix },
            );
        }
    }
}

} // verus!
