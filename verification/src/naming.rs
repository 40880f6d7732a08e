//! How x86 names registers, condition codes, group 1 operations and
//! segments, and the order of operands: every instruction is written with
//! those names.
use vstd::prelude::*;
use crate::decode::{
    alu_instruction, alu_name, jcc_instruction, jcc_name, mov_imm_instruction, read_value, step,
    take, Step,
};
use crate::hex::{lemma_pow256_values, lemma_swap_bytes_bound, parse_radix16};
use crate::operand::{
    extended, fixed_up_8_bit, lemma_extended_bound, register_map, register_text, OperandSize,
    Prefix,
};

verus! {

/// The 64-bit general registers in x86 numbering.
pub open spec fn x86_registers() -> Seq<Seq<char>> {
    seq!["rax"@, "rcx"@, "rdx"@, "rbx"@, "rsp"@, "rbp"@, "rsi"@, "rdi"@, "r8"@, "r9"@, "r10"@, "r11"@, "r12"@, "r13"@, "r14"@, "r15"@]
}

/// A name that is not a two-letter high-byte name is not renamed.
proof fn lemma_not_high_byte(name: Seq<char>)
    requires
        name.len() != 2 || name[1] != 'h',
    ensures
        fixed_up_8_bit(name) == name,
{
    reveal_strlit("ah");
    reveal_strlit("bh");
    reveal_strlit("ch");
    reveal_strlit("dh");
    assert("ah"@[1] == 'h');
    assert("bh"@[1] == 'h');
    assert("ch"@[1] == 'h');
    assert("dh"@[1] == 'h');
}

/// Register names at every width agree with the x86 numbering: register
/// `i` is the `i`-th 64-bit register; below 8 its 32-bit name is `e` and
/// its 64-bit name `r` before its 16-bit name, and its 8-bit name is the
/// low (`l`) byte of the 16-bit name, or for 4 to 7 the high (`h`) byte of
/// register `i - 4`, which a REX prefix turns into the low byte of the
/// 16-bit name (`spl`, `bpl`, `sil`, `dil`); from 8 on the narrower names
/// are the 64-bit name with `d`, `w` and `b`.
pub proof fn law_register_names(i: u8, has_rex: bool)
    requires
        i < 16,
    ensures
        register_text(i, OperandSize::Size64Bit, has_rex) == x86_registers()[i as int],
        i < 8 ==> register_text(i, OperandSize::Size32Bit, has_rex) == "e"@ + register_text(
            i,
            OperandSize::Size16Bit,
            has_rex,
        ),
        i < 8 ==> register_text(i, OperandSize::Size64Bit, has_rex) == "r"@ + register_text(
            i,
            OperandSize::Size16Bit,
            has_rex,
        ),
        i < 4 ==> register_text(i, OperandSize::Size8Bit, has_rex) == seq![
            register_text(i, OperandSize::Size16Bit, has_rex)[0],
            'l',
        ],
        4 <= i < 8 ==> register_text(i, OperandSize::Size8Bit, false) == seq![
            register_text((i - 4) as u8, OperandSize::Size16Bit, false)[0],
            'h',
        ],
        4 <= i < 8 ==> register_text(i, OperandSize::Size8Bit, true) == register_text(
            i,
            OperandSize::Size16Bit,
            true,
        ) + "l"@,
        8 <= i ==> register_text(i, OperandSize::Size32Bit, has_rex) == register_text(
            i,
            OperandSize::Size64Bit,
            has_rex,
        ) + "d"@,
        8 <= i ==> register_text(i, OperandSize::Size16Bit, has_rex) == register_text(
            i,
            OperandSize::Size64Bit,
            has_rex,
        ) + "w"@,
        8 <= i ==> register_text(i, OperandSize::Size8Bit, has_rex) == register_text(
            i,
            OperandSize::Size64Bit,
            has_rex,
        ) + "b"@,
{
    reveal_strlit("ah");
    reveal_strlit("bh");
    reveal_strlit("ch");
    reveal_strlit("dh");
    reveal_strlit("spl");
    reveal_strlit("bpl");
    reveal_strlit("sil");
    reveal_strlit("dil");
    assert("ah"@[0] == 'a' && "bh"@[0] == 'b' && "ch"@[0] == 'c' && "dh"@[0] == 'd');
    if i == 0 {
        reveal_strlit("al");
        reveal_strlit("ax");
        reveal_strlit("b");
        reveal_strlit("d");
        reveal_strlit("e");
        reveal_strlit("eax");
        reveal_strlit("l");
        reveal_strlit("r");
        reveal_strlit("rax");
        reveal_strlit("w");
        lemma_not_high_byte(register_map(0, 3));
    } else if i == 1 {
        reveal_strlit("b");
        reveal_strlit("cl");
        reveal_strlit("cx");
        reveal_strlit("d");
        reveal_strlit("e");
        reveal_strlit("ecx");
        reveal_strlit("l");
        reveal_strlit("r");
        reveal_strlit("rcx");
        reveal_strlit("w");
        lemma_not_high_byte(register_map(1, 3));
    } else if i == 2 {
        reveal_strlit("b");
        reveal_strlit("d");
        reveal_strlit("dl");
        reveal_strlit("dx");
        reveal_strlit("e");
        reveal_strlit("edx");
        reveal_strlit("l");
        reveal_strlit("r");
        reveal_strlit("rdx");
        reveal_strlit("w");
        lemma_not_high_byte(register_map(2, 3));
    } else if i == 3 {
        reveal_strlit("b");
        reveal_strlit("bl");
        reveal_strlit("bx");
        reveal_strlit("d");
        reveal_strlit("e");
        reveal_strlit("ebx");
        reveal_strlit("l");
        reveal_strlit("r");
        reveal_strlit("rbx");
        reveal_strlit("w");
        lemma_not_high_byte(register_map(3, 3));
    } else if i == 4 {
        reveal_strlit("ah");
        reveal_strlit("b");
        reveal_strlit("d");
        reveal_strlit("e");
        reveal_strlit("esp");
        reveal_strlit("l");
        reveal_strlit("r");
        reveal_strlit("rsp");
        reveal_strlit("sp");
        reveal_strlit("spl");
        reveal_strlit("w");
        reveal_strlit("ax");
        reveal_strlit("ah");
        reveal_strlit("bh");
        reveal_strlit("ch");
        reveal_strlit("dh");
        assert(register_map(4, 2) + "l"@ =~= fixed_up_8_bit(register_map(4, 3)));
    } else if i == 5 {
        reveal_strlit("b");
        reveal_strlit("bp");
        reveal_strlit("bpl");
        reveal_strlit("ch");
        reveal_strlit("d");
        reveal_strlit("e");
        reveal_strlit("ebp");
        reveal_strlit("l");
        reveal_strlit("r");
        reveal_strlit("rbp");
        reveal_strlit("w");
        reveal_strlit("cx");
        reveal_strlit("ah");
        reveal_strlit("bh");
        reveal_strlit("ch");
        reveal_strlit("dh");
        assert(register_map(5, 2) + "l"@ =~= fixed_up_8_bit(register_map(5, 3)));
    } else if i == 6 {
        reveal_strlit("b");
        reveal_strlit("d");
        reveal_strlit("dh");
        reveal_strlit("e");
        reveal_strlit("esi");
        reveal_strlit("l");
        reveal_strlit("r");
        reveal_strlit("rsi");
        reveal_strlit("si");
        reveal_strlit("sil");
        reveal_strlit("w");
        reveal_strlit("dx");
        reveal_strlit("ah");
        reveal_strlit("bh");
        reveal_strlit("ch");
        reveal_strlit("dh");
        assert(register_map(6, 2) + "l"@ =~= fixed_up_8_bit(register_map(6, 3)));
    } else if i == 7 {
        reveal_strlit("b");
        reveal_strlit("bh");
        reveal_strlit("d");
        reveal_strlit("di");
        reveal_strlit("dil");
        reveal_strlit("e");
        reveal_strlit("edi");
        reveal_strlit("l");
        reveal_strlit("r");
        reveal_strlit("rdi");
        reveal_strlit("w");
        reveal_strlit("bx");
        reveal_strlit("ah");
        reveal_strlit("bh");
        reveal_strlit("ch");
        reveal_strlit("dh");
        assert(register_map(7, 2) + "l"@ =~= fixed_up_8_bit(register_map(7, 3)));
    } else if i == 8 {
        reveal_strlit("b");
        reveal_strlit("d");
        reveal_strlit("e");
        reveal_strlit("l");
        reveal_strlit("r");
        reveal_strlit("r8");
        reveal_strlit("r8b");
        reveal_strlit("r8d");
        reveal_strlit("r8w");
        reveal_strlit("w");
        lemma_not_high_byte(register_map(8, 3));
    } else if i == 9 {
        reveal_strlit("b");
        reveal_strlit("d");
        reveal_strlit("e");
        reveal_strlit("l");
        reveal_strlit("r");
        reveal_strlit("r9");
        reveal_strlit("r9b");
        reveal_strlit("r9d");
        reveal_strlit("r9w");
        reveal_strlit("w");
        lemma_not_high_byte(register_map(9, 3));
    } else if i == 10 {
        reveal_strlit("b");
        reveal_strlit("d");
        reveal_strlit("e");
        reveal_strlit("l");
        reveal_strlit("r");
        reveal_strlit("r10");
        reveal_strlit("r10b");
        reveal_strlit("r10d");
        reveal_strlit("r10w");
        reveal_strlit("w");
        lemma_not_high_byte(register_map(10, 3));
    } else if i == 11 {
        reveal_strlit("b");
        reveal_strlit("d");
        reveal_strlit("e");
        reveal_strlit("l");
        reveal_strlit("r");
        reveal_strlit("r11");
        reveal_strlit("r11b");
        reveal_strlit("r11d");
        reveal_strlit("r11w");
        reveal_strlit("w");
        lemma_not_high_byte(register_map(11, 3));
    } else if i == 12 {
        reveal_strlit("b");
        reveal_strlit("d");
        reveal_strlit("e");
        reveal_strlit("l");
        reveal_strlit("r");
        reveal_strlit("r12");
        reveal_strlit("r12b");
        reveal_strlit("r12d");
        reveal_strlit("r12w");
        reveal_strlit("w");
        lemma_not_high_byte(register_map(12, 3));
    } else if i == 13 {
        reveal_strlit("b");
        reveal_strlit("d");
        reveal_strlit("e");
        reveal_strlit("l");
        reveal_strlit("r");
        reveal_strlit("r13");
        reveal_strlit("r13b");
        reveal_strlit("r13d");
        reveal_strlit("r13w");
        reveal_strlit("w");
        lemma_not_high_byte(register_map(13, 3));
    } else if i == 14 {
        reveal_strlit("b");
        reveal_strlit("d");
        reveal_strlit("e");
        reveal_strlit("l");
        reveal_strlit("r");
        reveal_strlit("r14");
        reveal_strlit("r14b");
        reveal_strlit("r14d");
        reveal_strlit("r14w");
        reveal_strlit("w");
        lemma_not_high_byte(register_map(14, 3));
    } else if i == 15 {
        reveal_strlit("b");
        reveal_strlit("d");
        reveal_strlit("e");
        reveal_strlit("l");
        reveal_strlit("r");
        reveal_strlit("r15");
        reveal_strlit("r15b");
        reveal_strlit("r15d");
        reveal_strlit("r15w");
        reveal_strlit("w");
        lemma_not_high_byte(register_map(15, 3));
    }
}

/// The conditional jumps in x86 condition-code order.
pub open spec fn x86_conditions() -> Seq<Seq<char>> {
    seq![
        "jo"@, "jno"@, "jb"@, "jnb"@, "je"@, "jne"@, "jbe"@, "ja"@, "js"@, "jns"@, "jp"@, "jnp"@,
        "jl"@, "jge"@, "jle"@, "jg"@,
    ]
}

/// The group 1 operations in the order of the ModRM `reg` field.
pub open spec fn x86_group1() -> Seq<Seq<char>> {
    seq!["add"@, "or"@, "adc"@, "sbb"@, "and"@, "sub"@, "xor"@, "cmp"@]
}

/// The segment override prefixes in x86 segment register order.
pub open spec fn x86_segments() -> Seq<Seq<char>> {
    seq!["es:"@, "cs:"@, "ss:"@, "ds:"@, "fs:"@, "gs:"@]
}

/// The segment register that an override byte names: 0x26, 0x2e, 0x36 and
/// 0x3e are `0x26 + 8 * n`, 0x64 and 0x65 are `0x60 + n`.
pub open spec fn segment_number(byte: nat) -> int {
    if byte < 0x40 {
        (byte - 0x26) / 8
    } else {
        byte - 0x60
    }
}

/// The 8-bit name of register `reg` after a REX prefix: the low byte of
/// every register, `spl`, `bpl`, `sil`, `dil` among them.
pub open spec fn low_byte_register(reg: u8) -> Seq<char> {
    if 4 <= reg < 8 {
        register_text(reg, OperandSize::Size16Bit, true) + "l"@
    } else {
        register_text(reg, OperandSize::Size8Bit, false)
    }
}

proof fn lemma_condition_table(op: u8)
    requires
        op < 16,
    ensures
        jcc_name(op) == x86_conditions()[op as int],
{
    let t = x86_conditions();
    assert(t[0] == "jo"@ && t[1] == "jno"@ && t[2] == "jb"@ && t[3] == "jnb"@);
    assert(t[4] == "je"@ && t[5] == "jne"@ && t[6] == "jbe"@ && t[7] == "ja"@);
    assert(t[8] == "js"@ && t[9] == "jns"@ && t[10] == "jp"@ && t[11] == "jnp"@);
    assert(t[12] == "jl"@ && t[13] == "jge"@ && t[14] == "jle"@ && t[15] == "jg"@);
}

proof fn lemma_group1_table(op: u8)
    requires
        op < 8,
    ensures
        alu_name(op) == x86_group1()[op as int],
{
    let t = x86_group1();
    assert(t[0] == "add"@ && t[1] == "or"@ && t[2] == "adc"@ && t[3] == "sbb"@);
    assert(t[4] == "and"@ && t[5] == "sub"@ && t[6] == "xor"@ && t[7] == "cmp"@);
}

/// A byte read from the input is below 256.
proof fn lemma_byte_bound(x: Seq<u8>, cur: int)
    ensures
        read_value(x, cur, 1) matches Ok(v) ==> v < 256,
{
    if read_value(x, cur, 1) is Ok {
        lemma_swap_bytes_bound(parse_radix16(x.subrange(cur, cur + 2)).unwrap(), 1);
        lemma_pow256_values();
    }
}

proof fn lemma_jcc_text(x: Seq<u8>, base: u64, cur: int, op: u8, bits: u8)
    requires
        op < 16,
    ensures
        jcc_instruction(x, base, cur, op, bits) matches Ok((_, t)) ==> (x86_conditions()[op as int]
            + " "@).is_prefix_of(t),
{
    lemma_condition_table(op);
    if let Ok((_, t)) = jcc_instruction(x, base, cur, op, bits) {
        let p = jcc_name(op) + " "@;
        assert(t.subrange(0, p.len() as int) =~= p);
    }
}

proof fn lemma_alu_text(x: Seq<u8>, cur: int, prefix: Prefix)
    ensures
        alu_instruction(x, cur, prefix) matches Ok((_, t)) ==> (take(x, cur, 1) matches Ok((_, m))
            && (x86_group1()[((m / 8) % 8) as int] + " "@).is_prefix_of(t)),
{
    lemma_byte_bound(x, cur);
    if let Ok((_, t)) = alu_instruction(x, cur, prefix) {
        let (_, m) = take(x, cur, 1)->Ok_0;
        let byte = m as u8;
        assert(byte == m);
        lemma_group1_table((byte / 8) % 8);
        let p = alu_name((byte / 8) % 8) + " "@;
        assert(t.subrange(0, p.len() as int) =~= p);
    }
}

proof fn lemma_mov_imm_text(x: Seq<u8>, cur: int, opcode: u8, prefix: Prefix)
    requires
        0xb0 <= opcode < 0xb8,
        prefix.wf(),
        prefix.rex is Some,
    ensures
        mov_imm_instruction(x, cur, opcode, prefix) matches Ok((_, t)) ==> ("mov "@
            + low_byte_register(extended(prefix.rex->Some_0.b, (opcode - 0xb0) as u8)) + ", "@).is_prefix_of(t),
{
    let r = prefix.rex->Some_0;
    let low = (opcode - 0xb0) as u8;
    let reg = extended(r.b, low);
    lemma_extended_bound(r.b, low);
    law_register_names(reg, true);
    law_register_names(reg, false);
    assert(register_text(reg, OperandSize::Size8Bit, true) == low_byte_register(reg));
    if let Ok((_, t)) = mov_imm_instruction(x, cur, opcode, prefix) {
        let p = "mov "@ + low_byte_register(reg) + ", "@;
        assert(t.subrange(0, p.len() as int) =~= p);
    }
}

/// A conditional jump is named by its condition code, in x86 order: the
/// step that reads `0x70 + c` (a 8-bit displacement follows) or `0x0f`,
/// `0x80 + c` (a 32-bit displacement follows) writes the `c`-th mnemonic of
/// `jo, jno, jb, jnb, je, jne, jbe, ja, js, jns, jp, jnp, jl, jge, jle, jg`
/// and a space before the target.
pub proof fn law_conditional_jump_mnemonics(x: Seq<u8>, base: u64, cur: int, prefix: Prefix)
    ensures
        match (step(x, base, cur, prefix), read_value(x, cur, 1)) {
            (Step::Instruction(_, t), Ok(v)) => {
                &&& 0x70 <= v < 0x80 ==> (x86_conditions()[v - 0x70] + " "@).is_prefix_of(t)
                &&& v == 0x0f ==> (read_value(x, cur + 2, 1) matches Ok(w) && 0x80 <= w < 0x90 && (
                x86_conditions()[w - 0x80] + " "@).is_prefix_of(t))
            },
            _ => true,
        },
{
    lemma_byte_bound(x, cur);
    lemma_byte_bound(x, cur + 2);
    if let Ok(v) = read_value(x, cur, 1) {
        let byte = v as u8;
        assert(byte == v);
        if 0x70 <= v < 0x80 {
            lemma_jcc_text(x, base, cur + 2, (byte - 0x70) as u8, 8);
        } else if v == 0x0f {
            if let Ok((c2, w)) = take(x, cur + 2, 1) {
                let op = w as u8;
                assert(op == w);
                if 0x80 <= w < 0x90 {
                    lemma_jcc_text(x, base, c2, (op - 0x80) as u8, 32);
                }
            }
        }
    }
}

/// The group 1 instruction 0x83 is named by the `reg` field of its ModRM
/// byte, in x86 order: `add, or, adc, sbb, and, sub, xor, cmp`, followed by
/// a space before the operands.
pub proof fn law_group1_mnemonics(x: Seq<u8>, base: u64, cur: int, prefix: Prefix)
    ensures
        match (step(x, base, cur, prefix), read_value(x, cur, 1)) {
            (Step::Instruction(_, t), Ok(v)) => v == 0x83 ==> (read_value(x, cur + 2, 1) matches Ok(
                m,
            ) && (x86_group1()[((m / 8) % 8) as int] + " "@).is_prefix_of(t)),
            _ => true,
        },
{
    lemma_alu_text(x, cur + 2, prefix);
}

/// After a REX prefix, `mov r8, imm8` (0xb0 to 0xb7) names its register as
/// the low byte of the 16-bit register (`spl`, `bpl`, `sil`, `dil` for 4 to
/// 7), never `ah`, `ch`, `dh` or `bh`: the step writes `mov`, that name and
/// a comma before the immediate.
pub proof fn law_rex_mov_byte_registers(x: Seq<u8>, base: u64, cur: int, prefix: Prefix)
    requires
        prefix.wf(),
    ensures
        match (step(x, base, cur, prefix), prefix.rex, read_value(x, cur, 1)) {
            (Step::Instruction(_, t), Some(r), Ok(v)) => 0xb0 <= v < 0xb8 ==> ("mov "@
                + low_byte_register(extended(r.b, (v - 0xb0) as u8)) + ", "@).is_prefix_of(t),
            _ => true,
        },
{
    lemma_byte_bound(x, cur);
    if let Ok(v) = read_value(x, cur, 1) {
        if 0xb0 <= v < 0xb8 && prefix.rex is Some {
            let byte = v as u8;
            assert(byte == v);
            lemma_mov_imm_text(x, cur + 2, byte, prefix);
        }
    }
}

/// Each segment override byte names its own segment, in x86 segment
/// register order (`es:`, `cs:`, `ss:`, `ds:`, `fs:`, `gs:`): the step that
/// reads it is a prefix, one byte long, that puts that segment before the
/// memory operand.
pub proof fn law_segment_override_names(x: Seq<u8>, base: u64, cur: int, prefix: Prefix)
    ensures
        match read_value(x, cur, 1) {
            Ok(v) => (v == 0x26 || v == 0x2e || v == 0x36 || v == 0x3e || v == 0x64 || v == 0x65)
                ==> (step(x, base, cur, prefix) matches Step::Prefix(c, p) && c == cur + 2
                && p.segment_override@ == x86_segments()[segment_number(v)]),
            _ => true,
        },
{
    let t = x86_segments();
    assert(t[0] == "es:"@ && t[1] == "cs:"@ && t[2] == "ss:"@ && t[3] == "ds:"@);
    assert(t[4] == "fs:"@ && t[5] == "gs:"@);
    lemma_byte_bound(x, cur);
    if let Ok(v) = read_value(x, cur, 1) {
        let byte = v as u8;
        assert(byte == v);
    }
}

/// The register that three bits of a ModRM byte name, extended by a REX bit.
pub open spec fn direct_register(bits: nat, rex_bit: Option<u8>) -> u8 {
    match rex_bit {
        Some(b) => (bits + 8 * b) as u8,
        None => bits as u8,
    }
}

/// The mnemonic of the two-operand forms 0x28 to 0x2b, 0x30 to 0x33 and
/// 0x88 to 0x8b.
pub open spec fn two_operand_name(opcode: nat) -> Seq<char> {
    if opcode < 0x30 {
        "sub"@
    } else if opcode < 0x88 {
        "xor"@
    } else {
        "mov"@
    }
}

/// Register to register, the two-operand forms follow the x86 opcode bits:
/// bit 0 clear means 8-bit operands (else the width the prefixes choose),
/// bit 1 clear means the register of the low three ModRM bits (r/m,
/// extended by REX.B) comes first and the one of bits 3 to 5 (reg,
/// extended by REX.R) second, and bit 1 set the other way round.
pub proof fn law_register_operands(x: Seq<u8>, base: u64, cur: int, prefix: Prefix)
    requires
        prefix.wf(),
    ensures
        match (step(x, base, cur, prefix), read_value(x, cur, 1), read_value(x, cur + 2, 1)) {
            (Step::Instruction(_, t), Ok(v), Ok(m)) => (((0x28 <= v < 0x2c) || (0x30 <= v < 0x34)
                || (0x88 <= v < 0x8c)) && m / 64 == 3) ==> {
                let size = if v % 2 == 0 {
                    OperandSize::Size8Bit
                } else {
                    prefix.operand_size()
                };
                let rex = prefix.rex is Some;
                let rm = register_text(
                    direct_register(m % 8, match prefix.rex {
                        Some(r) => Some(r.b),
                        None => None,
                    }),
                    size,
                    rex,
                );
                let reg = register_text(
                    direct_register((m / 8) % 8, match prefix.rex {
                        Some(r) => Some(r.r),
                        None => None,
                    }),
                    size,
                    rex,
                );
                t == two_operand_name(v) + " "@ + (if v % 4 < 2 {
                    rm
                } else {
                    reg
                }) + ", "@ + (if v % 4 < 2 {
                    reg
                } else {
                    rm
                })
            },
            _ => true,
        },
{
    lemma_byte_bound(x, cur);
    lemma_byte_bound(x, cur + 2);
    if let (Ok(v), Ok(m)) = (read_value(x, cur, 1), read_value(x, cur + 2, 1)) {
        let byte = v as u8;
        let modrm = m as u8;
        assert(byte == v && modrm == m);
        if let Some(r) = prefix.rex {
            lemma_extended_bound(r.b, modrm % 8);
            lemma_extended_bound(r.r, (modrm / 8) % 8);
        }
    }
}

/// `push` (0x50 to 0x57) names register `opcode - 0x50`, extended by
/// REX.B, at 64 bits, or at 16 bits after 0x66.
pub proof fn law_push_registers(x: Seq<u8>, base: u64, cur: int, prefix: Prefix)
    requires
        prefix.wf(),
    ensures
        match (step(x, base, cur, prefix), read_value(x, cur, 1)) {
            (Step::Instruction(_, t), Ok(v)) => 0x50 <= v < 0x58 ==> t == "push "@ + register_text(
                direct_register(
                    (v - 0x50) as nat,
                    match prefix.rex {
                        Some(r) => Some(r.b),
                        None => None,
                    },
                ),
                if prefix.has_0x66 {
                    OperandSize::Size16Bit
                } else {
                    OperandSize::Size64Bit
                },
                prefix.rex is Some,
            ),
            _ => true,
        },
{
    lemma_byte_bound(x, cur);
    if let Ok(v) = read_value(x, cur, 1) {
        let byte = v as u8;
        assert(byte == v);
        if let Some(r) = prefix.rex {
            if 0x50 <= v < 0x58 {
                lemma_extended_bound(r.b, (byte - 0x50) as u8);
            }
        }
    }
}

} // verus!
