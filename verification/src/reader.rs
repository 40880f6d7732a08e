//! The reader: walks a hexadecimal string and writes one line of assembly
//! per instruction.
use vstd::prelude::*;
use vstd::string::*;
use vstd::utf8::*;
use crate::decode::{
    alu_instruction, alu_name, based_operand, call_instruction, disassembly, dispatch, displacement_text,
    format_instruction, jcc_instruction, jcc_name, lea_instruction, lemma_step_progress, lemma_wrap,
    modrm_operands, modrm_reg, modrm_rm, mov_imm_instruction, progress, push_line, push_text,
    read_value, reg_rm_instruction, repeat_prefix_step, rip_operand, run, shifted_position,
    sib_memory_text, sib_operand, take_imm, twos_complement, Fault, Outcome, ReadError, Step,
};
use crate::hex::{
    lemma_pow256_values, parse_hex, pow256, push_alt_hex, push_decimal, swap_bytes_exec,
};
use crate::operand::{
    get_reg, lemma_extended_bound, parse_rex, parse_sib, AddressingMode, ModRM, OperandEncoding,
    OperandSize, Prefix,
};

verus! {

broadcast use {encode_utf8_valid_utf8, encode_utf8_decode_utf8};

/// A reader over a string of hexadecimal digits, two per machine byte.
#[derive(Debug)]
pub struct Reader {
    data: String,
    /// The current position in the hex string
    current: usize,
    base_address: u64,
}

/// What a reader holds: the text, the position in it, and the address at
/// which the code is loaded.
pub struct ReaderView {
    pub text: Seq<char>,
    pub current: int,
    pub base_address: u64,
}

/// The bytes of a text, as its UTF-8 encoding; the positions of a reader
/// count these.
pub open spec fn bytes_of(text: Seq<char>) -> Seq<u8> {
    encode_utf8(text)
}

impl View for Reader {
    type V = ReaderView;

    closed spec fn view(&self) -> ReaderView {
        ReaderView {
            text: self.data@,
            current: self.current as int,
            base_address: self.base_address,
        }
    }
}

impl ReadError {
    /// The fault of a read whose failure the decoder does not expect.
    fn fault(self) -> (f: Fault)
        ensures
            f == (match self {
                ReadError::Fault(g) => g,
                _ => Fault::MissingOperand,
            }),
    {
        match self {
            ReadError::Fault(g) => g,
            _ => Fault::MissingOperand,
        }
    }
}

/// A result of an instruction parser agrees with what the decoding
/// prescribes.
pub open spec fn parsed_as(
    expected: Result<(int, Seq<char>), Fault>,
    cur: usize,
    r: Result<String, Fault>,
) -> bool {
    match r {
        Ok(s) => expected == Ok::<(int, Seq<char>), Fault>((cur as int, s@)),
        Err(f) => expected == Err::<(int, Seq<char>), Fault>(f),
    }
}

proof fn lemma_boundary_in_prefix(bytes: Seq<u8>, end: int, i: int)
    requires
        valid_utf8(bytes),
        is_char_boundary(bytes, end),
        is_char_boundary(bytes, i),
        0 <= i <= end <= bytes.len(),
    ensures
        is_char_boundary(bytes.subrange(0, end), i),
{
    valid_utf8_split(bytes, end);
    let p = bytes.subrange(0, end);
    if i == end {
        is_char_boundary_start_end_of_seq(p);
    } else if i == 0 {
        is_char_boundary_start_end_of_seq(p);
    } else {
        is_char_boundary_iff_not_is_continuation_byte(bytes, i);
        is_char_boundary_iff_not_is_continuation_byte(p, i);
        assert(p[i] == bytes[i]);
    }
}

impl Reader {
    spec fn bytes(&self) -> Seq<u8> {
        encode_utf8(self.data@)
    }

    pub fn new(data: &str) -> (r: Self)
        ensures
            r@ == (ReaderView { text: data@, current: 0, base_address: 0 }),
    {
        Self { data: data.to_owned(), current: 0, base_address: 0 }
    }

    pub fn new_with_base(data: &str, base_address: u64) -> (r: Self)
        ensures
            r@ == (ReaderView { text: data@, current: 0, base_address: base_address }),
    {
        Self { data: data.to_owned(), current: 0, base_address: base_address }
    }

    fn current_byte(&self) -> (b: usize)
        ensures
            b == self.current / 2,
    {
        self.current / 2
    }

    fn change_current_byte(&mut self, delta: i64) -> (r: Result<(), Fault>)
        requires
            -0x8000_0000 <= delta <= 0x7fff_ffff,
        ensures
            final(self).data == old(self).data,
            final(self).base_address == old(self).base_address,
            match shifted_position(old(self).current as int, delta as int) {
                Some(c) => r is Ok && final(self).current == c,
                None => r == Err::<(), Fault>(Fault::Overflow),
            },
    {
        let c = self.current as i128;
        let signed: i128 = if c > i64::MAX as i128 {
            c - 0x1_0000_0000_0000_0000
        } else {
            c
        };
        let s = signed + delta as i128;
        if s < i64::MIN as i128 || s > i64::MAX as i128 {
            return Err(Fault::Overflow);
        }
        let m: i128 = usize::MAX as i128 + 1;
        assert(usize::MAX == 0xffff_ffff || usize::MAX == 0xffff_ffff_ffff_ffff);
        let wrapped: i128 = if s < 0 {
            s + m
        } else if s >= m {
            s - m
        } else {
            s
        };
        proof {
            let si = s as int;
            let mi = m as int;
            if s >= m {
                lemma_wrap(si - mi, mi);
                assert((si - mi) % mi == si % mi) by (nonlinear_arith)
                    requires
                        mi > 0,
                ;
            } else {
                lemma_wrap(s as int, m as int);
            }
        }
        self.current = wrapped as usize;
        Ok(())
    }

    /// Reads `n` machine bytes at the current position without moving.
    fn peek(&self, n: usize) -> (r: Result<u64, ReadError>)
        requires
            n == 1 || n == 2 || n == 4 || n == 8,
        ensures
            match r {
                Ok(v) => read_value(self.bytes(), self.current as int, n as nat) == Ok::<
                    nat,
                    ReadError,
                >(v as nat) && (v as nat) < pow256(n as nat),
                Err(e) => read_value(self.bytes(), self.current as int, n as nat) == Err::<
                    nat,
                    ReadError,
                >(e),
            },
    {
        let s = self.data.as_str();
        let bytes = s.as_bytes();
        let end = match self.current.checked_add(n * 2) {
            Some(e) => e,
            None => {
                return Err(ReadError::Fault(Fault::Overflow));
            },
        };
        if end > bytes.len() {
            return Err(ReadError::Eof);
        }
        if !s.is_char_boundary(self.current) || !s.is_char_boundary(end) {
            return Err(ReadError::Fault(Fault::NotCharBoundary));
        }
        match parse_hex(bytes, self.current, end) {
            Some(num) => Ok(swap_bytes_exec(num, n)),
            None => Err(ReadError::InvalidDigit),
        }
    }

    /// Reads `n` machine bytes and moves past them; a failed read does not
    /// move.
    fn read(&mut self, n: usize) -> (r: Result<u64, ReadError>)
        requires
            n == 1 || n == 2 || n == 4 || n == 8,
        ensures
            final(self).data == old(self).data,
            final(self).base_address == old(self).base_address,
            match r {
                Ok(v) => read_value(old(self).bytes(), old(self).current as int, n as nat) == Ok::<
                    nat,
                    ReadError,
                >(v as nat) && (v as nat) < pow256(n as nat) && final(self).current
                    == old(self).current + 2 * n,
                Err(e) => read_value(old(self).bytes(), old(self).current as int, n as nat)
                    == Err::<nat, ReadError>(e) && final(self).current == old(self).current,
            },
    {
        let ret = self.peek(n)?;
        self.current += n * 2;
        Ok(ret)
    }

    fn u8(&mut self) -> (r: Result<u8, ReadError>)
        ensures
            final(self).data == old(self).data,
            final(self).base_address == old(self).base_address,
            match r {
                Ok(v) => read_value(old(self).bytes(), old(self).current as int, 1) == Ok::<
                    nat,
                    ReadError,
                >(v as nat) && final(self).current == old(self).current + 2,
                Err(e) => read_value(old(self).bytes(), old(self).current as int, 1) == Err::<
                    nat,
                    ReadError,
                >(e) && final(self).current == old(self).current,
            },
    {
        proof {
            lemma_pow256_values();
        }
        let v = self.read(1)?;
        Ok(v as u8)
    }

    fn u16(&mut self) -> (r: Result<u16, ReadError>)
        ensures
            final(self).data == old(self).data,
            final(self).base_address == old(self).base_address,
            match r {
                Ok(v) => read_value(old(self).bytes(), old(self).current as int, 2) == Ok::<
                    nat,
                    ReadError,
                >(v as nat) && final(self).current == old(self).current + 4,
                Err(e) => read_value(old(self).bytes(), old(self).current as int, 2) == Err::<
                    nat,
                    ReadError,
                >(e) && final(self).current == old(self).current,
            },
    {
        proof {
            lemma_pow256_values();
        }
        let v = self.read(2)?;
        Ok(v as u16)
    }

    fn u32(&mut self) -> (r: Result<u32, ReadError>)
        ensures
            final(self).data == old(self).data,
            final(self).base_address == old(self).base_address,
            match r {
                Ok(v) => read_value(old(self).bytes(), old(self).current as int, 4) == Ok::<
                    nat,
                    ReadError,
                >(v as nat) && final(self).current == old(self).current + 8,
                Err(e) => read_value(old(self).bytes(), old(self).current as int, 4) == Err::<
                    nat,
                    ReadError,
                >(e) && final(self).current == old(self).current,
            },
    {
        proof {
            lemma_pow256_values();
        }
        let v = self.read(4)?;
        Ok(v as u32)
    }

    fn u64(&mut self) -> (r: Result<u64, ReadError>)
        ensures
            final(self).data == old(self).data,
            final(self).base_address == old(self).base_address,
            match r {
                Ok(v) => read_value(old(self).bytes(), old(self).current as int, 8) == Ok::<
                    nat,
                    ReadError,
                >(v as nat) && final(self).current == old(self).current + 16,
                Err(e) => read_value(old(self).bytes(), old(self).current as int, 8) == Err::<
                    nat,
                    ReadError,
                >(e) && final(self).current == old(self).current,
            },
    {
        self.read(8)
    }

    /// An immediate of `num_of_bits` bits, sign-extended to 64 bits.
    fn get_imm(&mut self, num_of_bits: u8) -> (r: Result<i64, Fault>)
        requires
            num_of_bits == 8 || num_of_bits == 16 || num_of_bits == 32 || num_of_bits == 64,
        ensures
            final(self).data == old(self).data,
            final(self).base_address == old(self).base_address,
            match r {
                Ok(v) => take_imm(old(self).bytes(), old(self).current as int, num_of_bits) == Ok::<
                    (int, int),
                    Fault,
                >((final(self).current as int, v as int)),
                Err(f) => take_imm(old(self).bytes(), old(self).current as int, num_of_bits)
                    == Err::<(int, int), Fault>(f),
            },
            r matches Ok(v) ==> (num_of_bits <= 32 ==> -0x8000_0000 <= v < 0x8000_0000),
            r matches Ok(v) ==> (num_of_bits == 8 ==> -0x80 <= v < 0x80),
    {
        proof {
            lemma_pow256_values();
        }
        if num_of_bits == 8 {
            match self.u8() {
                Ok(v) => Ok(
                    if v >= 0x80 {
                        v as i64 - 0x100
                    } else {
                        v as i64
                    },
                ),
                Err(e) => Err(e.fault()),
            }
        } else if num_of_bits == 16 {
            match self.u16() {
                Ok(v) => Ok(
                    if v >= 0x8000 {
                        v as i64 - 0x1_0000
                    } else {
                        v as i64
                    },
                ),
                Err(e) => Err(e.fault()),
            }
        } else if num_of_bits == 32 {
            match self.u32() {
                Ok(v) => Ok(
                    if v >= 0x8000_0000 {
                        v as i64 - 0x1_0000_0000
                    } else {
                        v as i64
                    },
                ),
                Err(e) => Err(e.fault()),
            }
        } else {
            match self.u64() {
                Ok(v) => Ok(
                    if v >= 0x8000_0000_0000_0000 {
                        (v - 0x8000_0000_0000_0000) as i64 + i64::MIN
                    } else {
                        v as i64
                    },
                ),
                Err(e) => Err(e.fault()),
            }
        }
    }

    /// The characters of the input between two character boundaries.
    fn input_slice(&self, lo: usize, hi: usize) -> (r: &str)
        requires
            lo <= hi <= self.bytes().len(),
            is_char_boundary(self.bytes(), lo as int),
            is_char_boundary(self.bytes(), hi as int),
        ensures
            r@ == decode_utf8(self.bytes().subrange(lo as int, hi as int)),
    {
        let s = self.data.as_str();
        let (head, _) = s.split_at(hi);
        proof {
            lemma_boundary_in_prefix(self.bytes(), hi as int, lo as int);
        }
        let (_, mid) = head.split_at(lo);
        assert(mid.spec_bytes() =~= self.bytes().subrange(lo as int, hi as int));
        mid
    }
}


impl Reader {
    fn format_instruction(opcode: &str, reg: &str, rm: &str, encoding: OperandEncoding) -> (s:
        String)
        ensures
            s@ == format_instruction(opcode@, reg@, rm@, encoding),
    {
        let mut s = String::new();
        s.append(opcode);
        s.append(" ");
        if encoding == OperandEncoding::MR {
            s.append(rm);
            s.append(", ");
            s.append(reg);
        } else {
            // OperandEncoding::RM
            s.append(reg);
            s.append(", ");
            s.append(rm);
        }
        s
    }

    /// The memory operand through a SIB byte, after the ModRM byte.
    fn parse_sib_operand(&mut self, addressing_mode: AddressingMode, prefix: &Prefix) -> (r:
        Result<String, Fault>)
        requires
            prefix.wf(),
        ensures
            final(self).data == old(self).data,
            final(self).base_address == old(self).base_address,
            parsed_as(
                sib_operand(old(self).bytes(), old(self).current as int, addressing_mode, *prefix),
                final(self).current,
                r,
            ),
    {
        let address_size = if prefix.has_0x67 {
            OperandSize::Size32Bit
        } else {
            OperandSize::Size64Bit
        };
        let sib_byte = match self.u8() {
            Ok(b) => b,
            Err(e) => {
                return Err(e.fault());
            },
        };
        let sib = parse_sib(sib_byte, prefix, addressing_mode, address_size);
        let mut displacement: i64 = 0;
        // [scaled index] + disp32
        if sib.base_reg.is_empty() && addressing_mode == AddressingMode::Memory {
            displacement = self.get_imm(32)?;
        } else {
            let bits = addressing_mode.displacement_bits();
            if bits != 0 {
                displacement = self.get_imm(bits)?;
            }
        }
        let ghost index_text = sib.index_reg@;
        let ghost base_text = sib.base_reg@;
        let mut scale_str = String::new();
        if !sib.index_reg.is_empty() {
            scale_str.append(sib.index_reg);
            scale_str.append("*");
            push_decimal(&mut scale_str, sib.scale as u64);
        }
        // The displacement's sign and its digits.
        let mut displacement_digits = String::new();
        let sign: &str;
        if displacement < 0 {
            sign = "-";
            push_alt_hex(&mut displacement_digits, (-displacement) as u64);
        } else if displacement > 0 {
            sign = "+";
            push_alt_hex(&mut displacement_digits, displacement as u64);
        } else {
            sign = "";
        }
        proof {
            reveal_strlit("-");
            reveal_strlit("+");
            reveal_strlit("");
            assert(displacement_text(displacement as int) =~= sign@ + displacement_digits@);
        }
        let mut rm = String::new();
        rm.append(sib.base_reg);
        if !scale_str.as_str().is_empty() {
            if rm.as_str().is_empty() {
                rm.append(scale_str.as_str());
            } else {
                rm.append("+");
                rm.append(scale_str.as_str());
            }
        }
        let mut text = String::new();
        text.append(prefix.segment_override);
        text.append("[");
        if rm.as_str().is_empty() {
            // Remove +/- when only displacement exists
            if displacement == 0 {
                return Err(Fault::EmptyDisplacement);
            }
            assert((sign@ + displacement_digits@).drop_first() =~= displacement_digits@);
            text.append(displacement_digits.as_str());
        } else {
            text.append(rm.as_str());
            text.append(sign);
            text.append(displacement_digits.as_str());
        }
        text.append("]");
        assert(sib_memory_text(
            prefix.segment_override@,
            sib.scale,
            index_text,
            base_text,
            displacement as int,
        ) == Some(text@));
        Ok(text)
    }

    /// The memory operand relative to the instruction pointer.
    fn parse_rip_operand(&mut self) -> (r: Result<String, Fault>)
        ensures
            final(self).data == old(self).data,
            final(self).base_address == old(self).base_address,
            parsed_as(rip_operand(old(self).bytes(), old(self).current as int), final(self).current, r),
    {
        let raw = match self.u32() {
            Ok(v) => v,
            Err(e) => {
                return Err(e.fault());
            },
        };
        proof {
            lemma_pow256_values();
        }
        let offset: i64 = if raw >= 0x8000_0000 {
            raw as i64 - 0x1_0000_0000
        } else {
            raw as i64
        };
        if offset == -0x8000_0000 {
            return Err(Fault::Overflow);
        }
        let mut rm = String::new();
        if offset < 0 {
            rm.append("[rip-");
            push_alt_hex(&mut rm, (-offset) as u64);
        } else {
            rm.append("[rip+");
            push_alt_hex(&mut rm, offset as u64);
        }
        rm.append("]");
        Ok(rm)
    }

    /// The memory operand based on register `rm` with its displacement.
    fn parse_based_operand(&mut self, addressing_mode: AddressingMode, rm: u8, prefix: &Prefix) -> (r:
        Result<String, Fault>)
        requires
            rm < 16,
        ensures
            final(self).data == old(self).data,
            final(self).base_address == old(self).base_address,
            parsed_as(
                based_operand(old(self).bytes(), old(self).current as int, addressing_mode, rm, *prefix),
                final(self).current,
                r,
            ),
    {
        let address_size = if prefix.has_0x67 {
            OperandSize::Size32Bit
        } else {
            OperandSize::Size64Bit
        };
        let bits = addressing_mode.displacement_bits();
        let mut displacement: i64 = 0;
        if bits != 0 {
            displacement = self.get_imm(bits)?;
        }
        // has_rex is irrelevant here
        let base_reg = get_reg(rm, address_size, prefix.rex.is_some());
        let mut text = String::new();
        text.append(prefix.segment_override);
        text.append("[");
        text.append(base_reg);
        let ghost before = text@;
        if displacement < 0 {
            text.append("-");
            push_alt_hex(&mut text, (-displacement) as u64);
        } else if displacement > 0 {
            text.append("+");
            push_alt_hex(&mut text, displacement as u64);
        }
        proof {
            reveal_strlit("");
        }
        assert(text@ =~= before + displacement_text(displacement as int));
        text.append("]");
        Ok(text)
    }

    /// parse_modrm returns register and rm
    fn parse_modrm(&mut self, byte: u8, prefix: &Prefix, operand_size: OperandSize) -> (r: Result<
        (String, String),
        Fault,
    >)
        requires
            prefix.wf(),
        ensures
            final(self).data == old(self).data,
            final(self).base_address == old(self).base_address,
            match r {
                Ok((reg, rm)) => modrm_operands(
                    old(self).bytes(),
                    old(self).current as int,
                    byte,
                    *prefix,
                    operand_size,
                ) == Ok::<(int, Seq<char>, Seq<char>), Fault>(
                    (final(self).current as int, reg@, rm@),
                ),
                Err(f) => modrm_operands(
                    old(self).bytes(),
                    old(self).current as int,
                    byte,
                    *prefix,
                    operand_size,
                ) == Err::<(int, Seq<char>, Seq<char>), Fault>(f),
            },
    {
        let mut modrm = ModRM::new(byte);
        if let Some(rex) = prefix.rex {
            proof {
                lemma_extended_bound(rex.r, (byte / 8) % 8);
                lemma_extended_bound(rex.b, byte % 8);
            }
            modrm.reg = (rex.r << 3) | modrm.reg;
            modrm.rm = (rex.b << 3) | modrm.rm;
        }
        assert(modrm.reg == modrm_reg(byte, *prefix) && modrm.rm == modrm_rm(byte, *prefix));
        let has_rex = prefix.rex.is_some();
        let reg = get_reg(modrm.reg, operand_size, has_rex).to_owned();
        let rm;
        if modrm.addressing_mode != AddressingMode::RegisterToRegister {
            // The correct way might be check if modrm.rm is 0b111 before
            // appending rex.b to it. But we have already appended rex.b
            // at this point, so check 3 LSb only.
            let rm_field = modrm.rm;
            let low = rm_field & 0b111;
            assert(low == rm_field % 8) by (bit_vector)
                requires
                    low == rm_field & 0b111u8,
            ;
            if low == 0b100 {
                // SIB byte addressing
                rm = self.parse_sib_operand(modrm.addressing_mode, prefix)?;
            } else if modrm.rm == 0b101 && modrm.addressing_mode == AddressingMode::Memory {
                // RIP relative addressing
                rm = self.parse_rip_operand()?;
            } else {
                rm = self.parse_based_operand(modrm.addressing_mode, modrm.rm, prefix)?;
            }
        } else {
            rm = get_reg(modrm.rm, operand_size, has_rex).to_owned();
        }
        Ok((reg, rm))
    }
}

/// The two's complement pattern of `v` in 64 bits.
fn twos64(v: i64) -> (r: u64)
    ensures
        r as nat == twos_complement(v as int, 8),
{
    proof {
        lemma_pow256_values();
    }
    if v < 0 {
        (v - i64::MIN) as u64 + 0x8000_0000_0000_0000
    } else {
        v as u64
    }
}

fn alu_op_name(op: u8) -> (name: &'static str)
    ensures
        name@ == alu_name(op),
{
    if op == 0 {
        "add"
    } else if op == 1 {
        "or"
    } else if op == 2 {
        "adc"
    } else if op == 3 {
        "sbb"
    } else if op == 4 {
        "and"
    } else if op == 5 {
        "sub"
    } else if op == 6 {
        "xor"
    } else {
        "cmp"
    }
}

fn jcc_op_name(op: u8) -> (name: &'static str)
    ensures
        name@ == jcc_name(op),
{
    if op == 0x0 {
        "jo"
    } else if op == 0x1 {
        "jno"
    } else if op == 0x2 {
        "jb"
    } else if op == 0x3 {
        "jnb"
    } else if op == 0x4 {
        "je"
    } else if op == 0x5 {
        "jne"
    } else if op == 0x6 {
        "jbe"
    } else if op == 0x7 {
        "ja"
    } else if op == 0x8 {
        "js"
    } else if op == 0x9 {
        "jns"
    } else if op == 0xa {
        "jp"
    } else if op == 0xb {
        "jnp"
    } else if op == 0xc {
        "jl"
    } else if op == 0xd {
        "jge"
    } else if op == 0xe {
        "jle"
    } else {
        "jg"
    }
}

impl Reader {
    /// A two-operand instruction with a ModRM byte.
    fn parse_reg_rm(
        &mut self,
        op_name: &str,
        opcode: u8,
        prefix: &Prefix,
        bit8_mr: u8,
        bit8_rm: u8,
        bit32_mr: u8,
        bit32_rm: u8,
    ) -> (r: Result<String, Fault>)
        requires
            prefix.wf(),
            bit8_mr != bit8_rm && bit8_mr != bit32_mr && bit8_mr != bit32_rm && bit8_rm != bit32_mr
                && bit8_rm != bit32_rm && bit32_mr != bit32_rm,
        ensures
            final(self).data == old(self).data,
            final(self).base_address == old(self).base_address,
            parsed_as(
                reg_rm_instruction(
                    old(self).bytes(),
                    old(self).current as int,
                    op_name@,
                    opcode,
                    *prefix,
                    bit8_mr,
                    bit8_rm,
                    bit32_mr,
                    bit32_rm,
                ),
                final(self).current,
                r,
            ),
    {
        let byte = match self.u8() {
            Ok(b) => b,
            Err(e) => {
                return Err(e.fault());
            },
        };
        let operand_size;
        let operand_encoding;
        if opcode == bit8_mr || opcode == bit8_rm {
            operand_size = OperandSize::Size8Bit;
            if opcode == bit8_mr {
                operand_encoding = OperandEncoding::MR;
            } else {
                operand_encoding = OperandEncoding::RM;
            }
        } else if opcode == bit32_mr || opcode == bit32_rm {
            operand_size = prefix.get_operand_size();
            if opcode == bit32_mr {
                operand_encoding = OperandEncoding::MR;
            } else {
                operand_encoding = OperandEncoding::RM;
            }
        } else {
            return Err(Fault::Unreachable);
        }
        let (reg, rm) = self.parse_modrm(byte, prefix, operand_size)?;
        Ok(Self::format_instruction(op_name, reg.as_str(), rm.as_str(), operand_encoding))
    }

    fn parse_mov_reg_rm(&mut self, opcode: u8, prefix: &Prefix) -> (r: Result<String, Fault>)
        requires
            prefix.wf(),
        ensures
            final(self).data == old(self).data,
            final(self).base_address == old(self).base_address,
            parsed_as(
                reg_rm_instruction(
                    old(self).bytes(),
                    old(self).current as int,
                    "mov"@,
                    opcode,
                    *prefix,
                    0x88,
                    0x8a,
                    0x89,
                    0x8b,
                ),
                final(self).current,
                r,
            ),
    {
        self.parse_reg_rm("mov", opcode, prefix, 0x88, 0x8a, 0x89, 0x8b)
    }

    fn parse_sub_reg_rm(&mut self, opcode: u8, prefix: &Prefix) -> (r: Result<String, Fault>)
        requires
            prefix.wf(),
        ensures
            final(self).data == old(self).data,
            final(self).base_address == old(self).base_address,
            parsed_as(
                reg_rm_instruction(
                    old(self).bytes(),
                    old(self).current as int,
                    "sub"@,
                    opcode,
                    *prefix,
                    0x28,
                    0x2a,
                    0x29,
                    0x2b,
                ),
                final(self).current,
                r,
            ),
    {
        self.parse_reg_rm("sub", opcode, prefix, 0x28, 0x2a, 0x29, 0x2b)
    }

    fn parse_xor_reg_rm(&mut self, opcode: u8, prefix: &Prefix) -> (r: Result<String, Fault>)
        requires
            prefix.wf(),
        ensures
            final(self).data == old(self).data,
            final(self).base_address == old(self).base_address,
            parsed_as(
                reg_rm_instruction(
                    old(self).bytes(),
                    old(self).current as int,
                    "xor"@,
                    opcode,
                    *prefix,
                    0x30,
                    0x32,
                    0x31,
                    0x33,
                ),
                final(self).current,
                r,
            ),
    {
        self.parse_reg_rm("xor", opcode, prefix, 0x30, 0x32, 0x31, 0x33)
    }

    fn parse_mov_rm_imm(&mut self, opcode: u8, prefix: &Prefix) -> (r: Result<String, Fault>)
        requires
            prefix.wf(),
            0xb0 <= opcode <= 0xbf,
        ensures
            final(self).data == old(self).data,
            final(self).base_address == old(self).base_address,
            parsed_as(
                mov_imm_instruction(old(self).bytes(), old(self).current as int, opcode, *prefix),
                final(self).current,
                r,
            ),
    {
        let operand_size: OperandSize;
        let mut reg;
        if opcode < 0xb8 {
            reg = opcode - 0xb0;
            operand_size = OperandSize::Size8Bit;
        } else {
            reg = opcode - 0xb8;
            operand_size = prefix.get_operand_size();
        }
        if let Some(rex) = prefix.rex {
            proof {
                lemma_extended_bound(rex.b, reg);
            }
            reg = (rex.b << 3) | reg;
        }
        let reg_str = get_reg(reg, operand_size, prefix.rex.is_some());
        let imm = self.get_imm(operand_size.imm_bits(true))?;
        let mut s = String::new();
        s.append("mov ");
        s.append(reg_str);
        s.append(", ");
        push_alt_hex(&mut s, twos64(imm));
        Ok(s)
    }

    fn parse_lea(&mut self, prefix: &Prefix) -> (r: Result<String, Fault>)
        requires
            prefix.wf(),
        ensures
            final(self).data == old(self).data,
            final(self).base_address == old(self).base_address,
            parsed_as(
                lea_instruction(old(self).bytes(), old(self).current as int, *prefix),
                final(self).current,
                r,
            ),
    {
        let operand_size = prefix.get_operand_size();
        let byte = match self.u8() {
            Ok(b) => b,
            Err(e) => {
                return Err(e.fault());
            },
        };
        let (reg, rm) = self.parse_modrm(byte, prefix, operand_size)?;
        let mut s = String::new();
        s.append("lea ");
        s.append(reg.as_str());
        s.append(", ");
        s.append(rm.as_str());
        Ok(s)
    }

    fn parse_alu_rm_imm8(&mut self, prefix: &Prefix) -> (r: Result<String, Fault>)
        requires
            prefix.wf(),
        ensures
            final(self).data == old(self).data,
            final(self).base_address == old(self).base_address,
            parsed_as(
                alu_instruction(old(self).bytes(), old(self).current as int, *prefix),
                final(self).current,
                r,
            ),
    {
        let operand_size = prefix.get_operand_size();
        let byte = match self.u8() {
            Ok(b) => b,
            Err(e) => {
                return Err(e.fault());
            },
        };
        let mut modrm = ModRM::new(byte);
        if let Some(rex) = prefix.rex {
            proof {
                lemma_extended_bound(rex.b, byte % 8);
            }
            modrm.rm = (rex.b << 3) | modrm.rm;
        }
        let rm = get_reg(modrm.rm, operand_size, prefix.rex.is_some());
        let opcode = alu_op_name(modrm.reg);
        let imm = self.get_imm(8)?;
        proof {
            lemma_pow256_values();
        }
        // The immediate as the two's complement pattern of a byte.
        let imm8: u8 = if imm < 0 {
            (imm + 0x100) as u8
        } else {
            imm as u8
        };
        let mut s = String::new();
        s.append(opcode);
        s.append(" ");
        s.append(rm);
        s.append(", ");
        push_alt_hex(&mut s, imm8 as u64);
        Ok(s)
    }

    fn parse_call(&mut self) -> (r: Result<String, Fault>)
        ensures
            final(self).data == old(self).data,
            final(self).base_address == old(self).base_address,
            parsed_as(
                call_instruction(old(self).bytes(), old(self).base_address, old(self).current as int),
                final(self).current,
                r,
            ),
    {
        let displacement = twos64(self.get_imm(32)?);
        let start = match self.base_address.checked_add(self.current_byte() as u64) {
            Some(s) => s,
            None => {
                return Err(Fault::Overflow);
            },
        };
        let pc = start.wrapping_add(displacement);
        let mut s = String::new();
        s.append("call ");
        push_alt_hex(&mut s, pc);
        Ok(s)
    }

    /// A conditional jump with condition `op` and a displacement of `bits`
    /// bits.
    fn parse_jcc(&mut self, op: u8, bits: u8) -> (r: Result<String, Fault>)
        requires
            bits == 8 || bits == 32,
        ensures
            final(self).data == old(self).data,
            final(self).base_address == old(self).base_address,
            parsed_as(
                jcc_instruction(
                    old(self).bytes(),
                    old(self).base_address,
                    old(self).current as int,
                    op,
                    bits,
                ),
                final(self).current,
                r,
            ),
    {
        let displacement = twos64(self.get_imm(bits)?);
        let start = match self.base_address.checked_add(self.current_byte() as u64) {
            Some(s) => s,
            None => {
                return Err(Fault::Overflow);
            },
        };
        let pc = match start.checked_add(displacement) {
            Some(p) => p,
            None => {
                return Err(Fault::Overflow);
            },
        };
        let op_str = jcc_op_name(op);
        let mut s = String::new();
        s.append(op_str);
        s.append(" ");
        push_alt_hex(&mut s, pc);
        Ok(s)
    }

    fn parse_jcc_rel32(&mut self, opcode: u8) -> (r: Result<String, Fault>)
        requires
            0x80 <= opcode <= 0x8f,
        ensures
            final(self).data == old(self).data,
            final(self).base_address == old(self).base_address,
            parsed_as(
                jcc_instruction(
                    old(self).bytes(),
                    old(self).base_address,
                    old(self).current as int,
                    (opcode - 0x80) as u8,
                    32,
                ),
                final(self).current,
                r,
            ),
    {
        let op = opcode - 0x80;
        self.parse_jcc(op, 32)
    }

    fn parse_jcc_rel8(&mut self, opcode: u8) -> (r: Result<String, Fault>)
        requires
            0x70 <= opcode <= 0x7f,
        ensures
            final(self).data == old(self).data,
            final(self).base_address == old(self).base_address,
            parsed_as(
                jcc_instruction(
                    old(self).bytes(),
                    old(self).base_address,
                    old(self).current as int,
                    (opcode - 0x70) as u8,
                    8,
                ),
                final(self).current,
                r,
            ),
    {
        let op = opcode - 0x70;
        self.parse_jcc(op, 8)
    }

    fn parse_push_reg(&mut self, opcode: u8, prefix: &Prefix) -> (s: String)
        requires
            prefix.wf(),
            0x50 <= opcode <= 0x58,
        ensures
            *final(self) == *old(self),
            s@ == push_text(opcode, *prefix),
    {
        // Only 64-bit, we don't have push r32 (e.g. push eax)
        let operand_size;
        if prefix.has_0x66 {
            operand_size = OperandSize::Size16Bit;
        } else {
            operand_size = OperandSize::Size64Bit;
        }
        let mut reg = opcode - 0x50;
        if let Some(rex) = prefix.rex {
            let rb = rex.b;
            let low = reg;
            reg = (rb << 3) | reg;
            assert(reg < 16) by (bit_vector)
                requires
                    rb <= 1,
                    low <= 8,
                    reg == (rb << 3u8) | low,
            ;
        }
        let reg_str = get_reg(reg, operand_size, prefix.rex.is_some());
        let mut s = String::new();
        s.append("push ");
        s.append(reg_str);
        s
    }
}

impl Reader {
    fn push_instruction(result: String, instruction: String) -> (r: String)
        ensures
            r@ == push_line(result@, instruction@),
    {
        let mut result = result;
        if !result.as_str().is_empty() {
            result.append("\n");
        }
        result.append(instruction.as_str());
        result
    }

    /// After 0xf3: `endbr64` (`Some`) when the next three bytes are
    /// 0f 1e fa; otherwise the position goes back three characters and the
    /// prefix stays (`None`).
    fn parse_repeat_prefix(&mut self, prefix: &Prefix) -> (r: Result<Option<String>, Fault>)
        ensures
            final(self).data == old(self).data,
            final(self).base_address == old(self).base_address,
            match r {
                Ok(Some(s)) => repeat_prefix_step(old(self).bytes(), old(self).current as int, *prefix)
                    == Step::Instruction(final(self).current as int, s@),
                Ok(None) => repeat_prefix_step(old(self).bytes(), old(self).current as int, *prefix)
                    == Step::Prefix(final(self).current as int, *prefix),
                Err(f) => repeat_prefix_step(old(self).bytes(), old(self).current as int, *prefix)
                    == Step::Crash(f),
            },
    {
        let next1 = self.u8();
        if let Err(ReadError::Fault(f)) = next1 {
            return Err(f);
        }
        let next2 = self.u8();
        if let Err(ReadError::Fault(f)) = next2 {
            return Err(f);
        }
        let next3 = self.u8();
        if let Err(ReadError::Fault(f)) = next3 {
            return Err(f);
        }
        if next1.is_ok() && next2.is_ok() && next3.is_ok() {
            if next1.unwrap() == 0x0f && next2.unwrap() == 0x1e && next3.unwrap() == 0xfa {
                return Ok(Some("endbr64".to_owned()));
            }
        }
        if let Err(f) = self.change_current_byte(-3) {
            return Err(f);
        }
        Ok(None)
    }

    /// The instruction (`Some`) or the prefix (`None`, with `prefix`
    /// updated) that the byte `byte` starts.
    fn decode_byte(&mut self, byte: u8, prefix: &mut Prefix) -> (r: Result<Option<String>, Fault>)
        requires
            old(prefix).wf(),
        ensures
            final(self).data == old(self).data,
            final(self).base_address == old(self).base_address,
            final(prefix).wf(),
            match r {
                Ok(Some(s)) => dispatch(
                    old(self).bytes(),
                    old(self).base_address,
                    old(self).current as int,
                    byte,
                    *old(prefix),
                ) == Step::Instruction(final(self).current as int, s@),
                Ok(None) => dispatch(
                    old(self).bytes(),
                    old(self).base_address,
                    old(self).current as int,
                    byte,
                    *old(prefix),
                ) == Step::Prefix(final(self).current as int, *final(prefix)),
                Err(f) => dispatch(
                    old(self).bytes(),
                    old(self).base_address,
                    old(self).current as int,
                    byte,
                    *old(prefix),
                ) == Step::Crash(f),
            },
    {
        match byte {
            0x0f => {
                let opcode = match self.u8() {
                    Ok(b) => b,
                    Err(e) => {
                        return Err(e.fault());
                    },
                };
                match opcode {
                    0x80..=0x8f => Ok(Some(self.parse_jcc_rel32(opcode)?)),
                    other => Err(Fault::Unimplemented { escape: true, opcode: other }),
                }
            },
            0x2e | 0x36 | 0x3e | 0x26 | 0x64 | 0x65 => {
                prefix.parse_segment_override(byte);
                Ok(None)
            },
            0x28..=0x2b => Ok(Some(self.parse_sub_reg_rm(byte, prefix)?)),
            0x30..=0x33 => Ok(Some(self.parse_xor_reg_rm(byte, prefix)?)),
            0x40..=0x4f => {
                // REX prefix is valid only if it immediately precedes the
                // opcode byte; this is not checked.
                prefix.rex = Some(parse_rex(byte));
                Ok(None)
            },
            0x50..=0x58 => Ok(Some(self.parse_push_reg(byte, prefix))),
            // Operand size prefix to switch between 16-bit and 32-bit
            0x66 => {
                prefix.has_0x66 = true;
                Ok(None)
            },
            // Address size prefix to switch between 32-bit and 64-bit
            0x67 => {
                prefix.has_0x67 = true;
                Ok(None)
            },
            0x70..=0x7f => Ok(Some(self.parse_jcc_rel8(byte)?)),
            0x83 => Ok(Some(self.parse_alu_rm_imm8(prefix)?)),
            0x88..=0x8c | 0x8e => Ok(Some(self.parse_mov_reg_rm(byte, prefix)?)),
            0x8d => Ok(Some(self.parse_lea(prefix)?)),
            0xb0..=0xbf => Ok(Some(self.parse_mov_rm_imm(byte, prefix)?)),
            0xc3 => Ok(Some("ret".to_owned())),
            0xc9 => Ok(Some("leave".to_owned())),
            0xe8 => Ok(Some(self.parse_call()?)),
            0xf0..=0xf3 => {
                prefix.group1_prefix = Some(byte);
                if byte == 0xf3 {
                    self.parse_repeat_prefix(prefix)
                } else {
                    Ok(None)
                }
            },
            other => Err(Fault::Unimplemented { escape: false, opcode: other }),
        }
    }

    /// Disassembles from the current position to the end of the input, or
    /// to the first place where the input is not hexadecimal (`Ok(Err(..))`);
    /// `Err(fault)` where the input holds what decoding cannot go on from.
    pub fn try_disassemble(&mut self) -> (r: Result<Result<String, String>, Fault>)
        ensures
            final(self)@.text == old(self)@.text,
            final(self)@.base_address == old(self)@.base_address,
            match r {
                Ok(Ok(s)) => disassembly(
                    bytes_of(old(self)@.text),
                    old(self)@.base_address,
                    old(self)@.current,
                ) == Outcome::Finished(Ok(s@), final(self)@.current),
                Ok(Err(m)) => disassembly(
                    bytes_of(old(self)@.text),
                    old(self)@.base_address,
                    old(self)@.current,
                ) == Outcome::Finished(Err(m@), final(self)@.current),
                Err(f) => disassembly(
                    bytes_of(old(self)@.text),
                    old(self)@.base_address,
                    old(self)@.current,
                ) == Outcome::Crashed(f),
            },
    {
        let ghost bytes = self.bytes();
        let ghost base = self.base_address;
        let ghost start = self.current as int;
        let mut result = String::new();
        let mut prefix = Prefix::new();
        loop
            invariant
                self.data == old(self).data,
                self.bytes() == bytes,
                self.base_address == base,
                bytes == bytes_of(old(self)@.text),
                base == old(self)@.base_address,
                start == old(self)@.current,
                prefix.wf(),
                run(bytes, base, self.current as int, prefix, result@) == disassembly(
                    bytes,
                    base,
                    start,
                ),
            decreases progress(bytes, self.current as int),
        {
            proof {
                lemma_step_progress(bytes, base, self.current as int, prefix);
            }
            match self.u8() {
                Ok(byte) => {
                    match self.decode_byte(byte, &mut prefix) {
                        Ok(Some(instruction)) => {
                            result = Self::push_instruction(result, instruction);
                            prefix = Prefix::new();
                        },
                        Ok(None) => {},
                        Err(f) => {
                            return Err(f);
                        },
                    }
                },
                Err(ReadError::Eof) => {
                    return Ok(Ok(result));
                },
                Err(ReadError::InvalidDigit) => {
                    let raw = self.input_slice(self.current, self.current + 2);
                    let mut message = String::new();
                    message.append("Failed to parse byte, err: ");
                    message.append("invalid digit found in string: input: ");
                    message.append(raw);
                    return Ok(Err(message));
                },
                Err(ReadError::Fault(f)) => {
                    return Err(f);
                },
            }
        }
    }

    /// Disassembles from the current position to the end of the input:
    /// one instruction per line, or the error for the first characters
    /// that are not hexadecimal.
    pub fn disassemble(&mut self) -> (r: Result<String, String>)
        requires
            !(disassembly(
                bytes_of(old(self)@.text),
                old(self)@.base_address,
                old(self)@.current,
            ) is Crashed),
        ensures
            final(self)@.text == old(self)@.text,
            final(self)@.base_address == old(self)@.base_address,
            disassembly(bytes_of(old(self)@.text), old(self)@.base_address, old(self)@.current)
                == Outcome::Finished(
                match r {
                    Ok(s) => Ok::<Seq<char>, Seq<char>>(s@),
                    Err(m) => Err::<Seq<char>, Seq<char>>(m@),
                },
                final(self)@.current,
            ),
    {
        match self.try_disassemble() {
            Ok(r) => r,
            Err(_) => {
                assert(false);
                Err(String::new())
            },
        }
    }
}

} // verus!
