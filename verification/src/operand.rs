//! The pieces of an instruction's encoding: prefixes, the ModRM and SIB
//! bytes, operand sizes and register names.
use vstd::prelude::*;
use vstd::string::*;

verus! {

/// The width of an operand.
#[derive(Debug, Clone, Copy, PartialEq, Eq, Structural)]
pub enum OperandSize {
    Size64Bit,
    Size32Bit,
    Size16Bit,
    Size8Bit,
}

impl OperandSize {
    /// The column of the register table that holds registers of this width.
    pub open spec fn column(self) -> int {
        match self {
            OperandSize::Size64Bit => 0,
            OperandSize::Size32Bit => 1,
            OperandSize::Size16Bit => 2,
            OperandSize::Size8Bit => 3,
        }
    }

    /// The number of bits of an immediate operand of this width.
    pub open spec fn immediate_bits(self, can_64bit: bool) -> u8 {
        match self {
            OperandSize::Size8Bit => 8,
            OperandSize::Size16Bit => 16,
            OperandSize::Size32Bit => 32,
            OperandSize::Size64Bit => if can_64bit {
                64
            } else {
                32
            },
        }
    }

    /// Sometimes, the immediate is only 32-bit even if the operand is
    /// 64-bit.
    pub(crate) fn imm_bits(&self, can_64bit: bool) -> (bits: u8)
        ensures
            bits == self.immediate_bits(can_64bit),
    {
        match self {
            OperandSize::Size8Bit => 8,
            OperandSize::Size16Bit => 16,
            OperandSize::Size32Bit => 32,
            OperandSize::Size64Bit => {
                if can_64bit {
                    64
                } else {
                    32
                }
            },
        }
    }

    fn table_column(&self) -> (c: u8)
        ensures
            c as int == self.column(),
    {
        match self {
            OperandSize::Size64Bit => 0,
            OperandSize::Size32Bit => 1,
            OperandSize::Size16Bit => 2,
            OperandSize::Size8Bit => 3,
        }
    }
}

/// Which operand of a two-operand instruction the ModRM `rm` field names
/// first.
#[derive(Debug, Clone, Copy, PartialEq, Eq, Structural)]
pub enum OperandEncoding {
    MR,
    RM,
}

/// The `mod` field of a ModRM byte.
#[derive(Debug, Clone, Copy, PartialEq, Eq, Structural)]
pub enum AddressingMode {
    Memory,
    MemoryWith8BitDisp,
    MemoryWith32BitDisp,
    RegisterToRegister,
}

impl AddressingMode {
    /// The mode that the two bits `raw` select.
    pub open spec fn of_bits(raw: u8) -> AddressingMode {
        if raw == 0 {
            AddressingMode::Memory
        } else if raw == 1 {
            AddressingMode::MemoryWith8BitDisp
        } else if raw == 2 {
            AddressingMode::MemoryWith32BitDisp
        } else {
            AddressingMode::RegisterToRegister
        }
    }

    /// The number of bits of the displacement that follows in this mode.
    pub open spec fn disp_bits(self) -> u8 {
        match self {
            AddressingMode::MemoryWith8BitDisp => 8,
            AddressingMode::MemoryWith32BitDisp => 32,
            _ => 0,
        }
    }

    fn from_bits(raw: u8) -> (m: AddressingMode)
        requires
            raw < 4,
        ensures
            m == AddressingMode::of_bits(raw),
    {
        if raw == 0 {
            AddressingMode::Memory
        } else if raw == 1 {
            AddressingMode::MemoryWith8BitDisp
        } else if raw == 2 {
            AddressingMode::MemoryWith32BitDisp
        } else {
            AddressingMode::RegisterToRegister
        }
    }

    pub(crate) fn displacement_bits(&self) -> (bits: u8)
        ensures
            bits == self.disp_bits(),
    {
        match self {
            AddressingMode::MemoryWith8BitDisp => 8,
            AddressingMode::MemoryWith32BitDisp => 32,
            _ => 0,
        }
    }
}

//  7                            0
// +---+---+---+---+---+---+---+---+
// |  mod  |    reg    |     rm    |
// +---+---+---+---+---+---+---+---+
pub const MODRM_MOD_POS: u8 = 6;

pub const MODRM_REG_POS: u8 = 3;

/// The fields of a ModRM byte.
#[derive(Debug, Clone, Copy)]
pub struct ModRM {
    pub addressing_mode: AddressingMode,
    pub reg: u8,
    pub rm: u8,
}

/// The addressing mode that the top two bits of a ModRM byte select.
pub open spec fn mode_of(byte: u8) -> AddressingMode {
    AddressingMode::of_bits(byte / 64)
}

impl ModRM {
    pub(crate) fn new(byte: u8) -> (m: ModRM)
        ensures
            m.addressing_mode == mode_of(byte),
            m.reg == (byte / 8) % 8,
            m.rm == byte % 8,
    {
        let addressing_mode_raw = (byte & (0b11 << MODRM_MOD_POS)) >> MODRM_MOD_POS;
        assert(addressing_mode_raw == byte / 64) by (bit_vector)
            requires
                addressing_mode_raw == (byte & (0b11u8 << 6u8)) >> 6u8,
        ;
        let addressing_mode = AddressingMode::from_bits(addressing_mode_raw);
        let reg = (byte & (0b111 << MODRM_REG_POS)) >> MODRM_REG_POS;
        assert(reg == (byte / 8) % 8) by (bit_vector)
            requires
                reg == (byte & (0b111u8 << 3u8)) >> 3u8,
        ;
        let rm = byte & 0b111;
        assert(rm == byte % 8) by (bit_vector)
            requires
                rm == byte & 0b111u8,
        ;
        ModRM { addressing_mode: addressing_mode, reg: reg, rm: rm }
    }
}

//  7                            0
// +---+---+---+---+---+---+---+---+
// | 0   1   0   0 | W | R | X | B |
// +---+---+---+---+---+---+---+---+
pub const REX_W_POS: u8 = 3;

pub const REX_R_POS: u8 = 2;

pub const REX_X_POS: u8 = 1;

/// The bits of a REX prefix.
#[derive(Debug, Clone, Copy, PartialEq, Eq, Structural)]
pub struct Rex {
    /// 64-bit operand
    pub w: u8,
    /// an extension to modrm.reg
    pub r: u8,
    /// an extension to sib.index
    pub x: u8,
    /// an extension to modrm.rm or sib.base
    pub b: u8,
}

/// The REX prefix that the byte `byte` (0x40 to 0x4f) encodes.
pub open spec fn rex_of(byte: u8) -> Rex {
    Rex { w: (byte / 8) % 2, r: (byte / 4) % 2, x: (byte / 2) % 2, b: byte % 2 }
}

pub(crate) fn parse_rex(byte: u8) -> (rex: Rex)
    ensures
        rex == rex_of(byte),
{
    let w = (byte & (1 << REX_W_POS)) >> REX_W_POS;
    let r = (byte & (1 << REX_R_POS)) >> REX_R_POS;
    let x = (byte & (1 << REX_X_POS)) >> REX_X_POS;
    let b = byte & 1;
    assert(w == (byte / 8) % 2 && r == (byte / 4) % 2 && x == (byte / 2) % 2 && b == byte % 2)
        by (bit_vector)
        requires
            w == (byte & (1u8 << 3u8)) >> 3u8,
            r == (byte & (1u8 << 2u8)) >> 2u8,
            x == (byte & (1u8 << 1u8)) >> 1u8,
            b == byte & 1u8,
    ;
    Rex { w, r, x, b }
}

/// The prefixes read so far for the instruction being decoded.
#[derive(Debug, Clone, Copy)]
pub struct Prefix {
    pub group1_prefix: Option<u8>,
    pub segment_override: &'static str,
    /// Override the default operand size
    pub has_0x66: bool,
    /// Override the default memory size
    pub has_0x67: bool,
    pub rex: Option<Rex>,
}

/// The bytes that override the segment of a memory operand.
pub open spec fn is_segment_override(byte: u8) -> bool {
    byte == 0x2e || byte == 0x36 || byte == 0x3e || byte == 0x26 || byte == 0x64 || byte
        == 0x65
}

/// The text that a segment override byte puts before a memory operand.
pub open spec fn segment_override_text(byte: u8) -> &'static str {
    if byte == 0x2e {
        "cs:"
    } else if byte == 0x36 {
        "ss:"
    } else if byte == 0x3e {
        "ds:"
    } else if byte == 0x26 {
        "es:"
    } else if byte == 0x64 {
        "fs:"
    } else {
        "gs:"
    }
}

impl Prefix {
    /// No prefix at all.
    pub open spec fn empty() -> Prefix {
        Prefix {
            group1_prefix: None,
            segment_override: "",
            has_0x66: false,
            has_0x67: false,
            rex: None,
        }
    }

    /// Every REX bit is a single bit.
    pub open spec fn wf(self) -> bool {
        self.rex matches Some(r) ==> (r.w <= 1 && r.r <= 1 && r.x <= 1 && r.b <= 1)
    }

    /// 16-bit, 32-bit and 64-bit usually use the same opcode, we
    /// differentiate between them by looking at the prefixes.
    pub open spec fn operand_size(self) -> OperandSize {
        if self.has_0x66 {
            OperandSize::Size16Bit
        } else if self.rex matches Some(r) && r.w == 1 {
            OperandSize::Size64Bit
        } else {
            OperandSize::Size32Bit
        }
    }

    pub(crate) fn new() -> (p: Self)
        ensures
            p == Prefix::empty(),
    {
        Self {
            group1_prefix: None,
            segment_override: "",
            has_0x66: false,
            has_0x67: false,
            rex: None,
        }
    }

    pub(crate) fn parse_segment_override(&mut self, byte: u8)
        requires
            is_segment_override(byte),
        ensures
            *final(self) == (Prefix { segment_override: segment_override_text(byte), ..*old(self) }),
    {
        let segment_override = if byte == 0x2e {
            "cs:"
        } else if byte == 0x36 {
            "ss:"
        } else if byte == 0x3e {
            "ds:"
        } else if byte == 0x26 {
            "es:"
        } else if byte == 0x64 {
            "fs:"
        } else {
            "gs:"
        };
        self.segment_override = segment_override;
    }

    pub(crate) fn get_operand_size(&self) -> (size: OperandSize)
        ensures
            size == self.operand_size(),
    {
        if self.has_0x66 {
            OperandSize::Size16Bit
        } else if let Some(rex) = self.rex {
            if rex.w == 1 {
                OperandSize::Size64Bit
            } else {
                OperandSize::Size32Bit
            }
        } else {
            OperandSize::Size32Bit
        }
    }
}

/// The register table: row `index`, column `column` (64, 32, 16 and 8 bits).
pub open spec fn register_map(index: int, column: int) -> Seq<char> {
    if index == 0 {
        if column == 0 { "rax"@ } else if column == 1 { "eax"@ } else if column == 2 { "ax"@ } else { "al"@ }
    } else if index == 1 {
        if column == 0 { "rcx"@ } else if column == 1 { "ecx"@ } else if column == 2 { "cx"@ } else { "cl"@ }
    } else if index == 2 {
        if column == 0 { "rdx"@ } else if column == 1 { "edx"@ } else if column == 2 { "dx"@ } else { "dl"@ }
    } else if index == 3 {
        if column == 0 { "rbx"@ } else if column == 1 { "ebx"@ } else if column == 2 { "bx"@ } else { "bl"@ }
    } else if index == 4 {
        if column == 0 { "rsp"@ } else if column == 1 { "esp"@ } else if column == 2 { "sp"@ } else { "ah"@ }
    } else if index == 5 {
        if column == 0 { "rbp"@ } else if column == 1 { "ebp"@ } else if column == 2 { "bp"@ } else { "ch"@ }
    } else if index == 6 {
        if column == 0 { "rsi"@ } else if column == 1 { "esi"@ } else if column == 2 { "si"@ } else { "dh"@ }
    } else if index == 7 {
        if column == 0 { "rdi"@ } else if column == 1 { "edi"@ } else if column == 2 { "di"@ } else { "bh"@ }
    } else if index == 8 {
        if column == 0 { "r8"@ } else if column == 1 { "r8d"@ } else if column == 2 { "r8w"@ } else { "r8b"@ }
    } else if index == 9 {
        if column == 0 { "r9"@ } else if column == 1 { "r9d"@ } else if column == 2 { "r9w"@ } else { "r9b"@ }
    } else if index == 10 {
        if column == 0 { "r10"@ } else if column == 1 { "r10d"@ } else if column == 2 { "r10w"@ } else { "r10b"@ }
    } else if index == 11 {
        if column == 0 { "r11"@ } else if column == 1 { "r11d"@ } else if column == 2 { "r11w"@ } else { "r11b"@ }
    } else if index == 12 {
        if column == 0 { "r12"@ } else if column == 1 { "r12d"@ } else if column == 2 { "r12w"@ } else { "r12b"@ }
    } else if index == 13 {
        if column == 0 { "r13"@ } else if column == 1 { "r13d"@ } else if column == 2 { "r13w"@ } else { "r13b"@ }
    } else if index == 14 {
        if column == 0 { "r14"@ } else if column == 1 { "r14d"@ } else if column == 2 { "r14w"@ } else { "r14b"@ }
    } else {
        if column == 0 { "r15"@ } else if column == 1 { "r15d"@ } else if column == 2 { "r15w"@ } else { "r15b"@ }
    }
}

fn register_map_entry(index: u8, column: u8) -> (name: &'static str)
    ensures
        name@ == register_map(index as int, column as int),
{
    if index == 0 {
        if column == 0 { "rax" } else if column == 1 { "eax" } else if column == 2 { "ax" } else { "al" }
    } else if index == 1 {
        if column == 0 { "rcx" } else if column == 1 { "ecx" } else if column == 2 { "cx" } else { "cl" }
    } else if index == 2 {
        if column == 0 { "rdx" } else if column == 1 { "edx" } else if column == 2 { "dx" } else { "dl" }
    } else if index == 3 {
        if column == 0 { "rbx" } else if column == 1 { "ebx" } else if column == 2 { "bx" } else { "bl" }
    } else if index == 4 {
        if column == 0 { "rsp" } else if column == 1 { "esp" } else if column == 2 { "sp" } else { "ah" }
    } else if index == 5 {
        if column == 0 { "rbp" } else if column == 1 { "ebp" } else if column == 2 { "bp" } else { "ch" }
    } else if index == 6 {
        if column == 0 { "rsi" } else if column == 1 { "esi" } else if column == 2 { "si" } else { "dh" }
    } else if index == 7 {
        if column == 0 { "rdi" } else if column == 1 { "edi" } else if column == 2 { "di" } else { "bh" }
    } else if index == 8 {
        if column == 0 { "r8" } else if column == 1 { "r8d" } else if column == 2 { "r8w" } else { "r8b" }
    } else if index == 9 {
        if column == 0 { "r9" } else if column == 1 { "r9d" } else if column == 2 { "r9w" } else { "r9b" }
    } else if index == 10 {
        if column == 0 { "r10" } else if column == 1 { "r10d" } else if column == 2 { "r10w" } else { "r10b" }
    } else if index == 11 {
        if column == 0 { "r11" } else if column == 1 { "r11d" } else if column == 2 { "r11w" } else { "r11b" }
    } else if index == 12 {
        if column == 0 { "r12" } else if column == 1 { "r12d" } else if column == 2 { "r12w" } else { "r12b" }
    } else if index == 13 {
        if column == 0 { "r13" } else if column == 1 { "r13d" } else if column == 2 { "r13w" } else { "r13b" }
    } else if index == 14 {
        if column == 0 { "r14" } else if column == 1 { "r14d" } else if column == 2 { "r14w" } else { "r14b" }
    } else {
        if column == 0 { "r15" } else if column == 1 { "r15d" } else if column == 2 { "r15w" } else { "r15b" }
    }
}

/// With a REX prefix in 64-bit mode, attempts to access AH, BH, CH, or DH
/// will instead access SPL, DIL, BPL, or SIL, respectively.
pub open spec fn fixed_up_8_bit(name: Seq<char>) -> Seq<char> {
    if name == "ah"@ {
        "spl"@
    } else if name == "bh"@ {
        "dil"@
    } else if name == "ch"@ {
        "bpl"@
    } else if name == "dh"@ {
        "sil"@
    } else {
        name
    }
}

/// `name` is the two-letter name whose letters are `first` and `second`.
fn is_two_letter(name: &str, first: char, second: char) -> (r: bool)
    ensures
        r == (name@ == seq![first, second]),
{
    if name.unicode_len() == 2 {
        let a = name.get_char(0);
        let b = name.get_char(1);
        if a == first && b == second {
            assert(name@ =~= seq![first, second]);
            true
        } else {
            false
        }
    } else {
        false
    }
}

fn fix_up_8_bit_reg(reg: &'static str) -> (r: &'static str)
    ensures
        r@ == fixed_up_8_bit(reg@),
{
    proof {
        reveal_strlit("ah");
        reveal_strlit("bh");
        reveal_strlit("ch");
        reveal_strlit("dh");
        assert("ah"@ =~= seq!['a', 'h']);
        assert("bh"@ =~= seq!['b', 'h']);
        assert("ch"@ =~= seq!['c', 'h']);
        assert("dh"@ =~= seq!['d', 'h']);
    }
    if is_two_letter(reg, 'a', 'h') {
        "spl"
    } else if is_two_letter(reg, 'b', 'h') {
        "dil"
    } else if is_two_letter(reg, 'c', 'h') {
        "bpl"
    } else if is_two_letter(reg, 'd', 'h') {
        "sil"
    } else {
        reg
    }
}

/// The name of register `index` at width `size`.
pub open spec fn register_text(index: u8, size: OperandSize, has_rex: bool) -> Seq<char> {
    let name = register_map(index as int, size.column());
    if size == OperandSize::Size8Bit && has_rex {
        fixed_up_8_bit(name)
    } else {
        name
    }
}

pub(crate) fn get_reg(reg_index: u8, operand_size: OperandSize, has_rex: bool) -> (name: &'static str)
    requires
        reg_index < 16,
    ensures
        name@ == register_text(reg_index, operand_size, has_rex),
{
    let size = operand_size.table_column();
    let mut reg = register_map_entry(reg_index, size);
    if operand_size == OperandSize::Size8Bit && has_rex {
        reg = fix_up_8_bit_reg(reg);
    }
    reg
}

//  7                            0
// +---+---+---+---+---+---+---+---+
// | scale |   index   |    base   |
// +---+---+---+---+---+---+---+---+
pub const SIB_SCALE_POS: u8 = 6;

pub const SIB_INDEX_POS: u8 = 3;

/// The operands a SIB byte names.
#[derive(Debug, Clone, Copy)]
pub struct Sib {
    pub scale: u8,
    pub index_reg: &'static str,
    pub base_reg: &'static str,
}

/// The register number `low` extended by a REX bit: `(rex_bit << 3) | low`.
pub open spec fn extended(rex_bit: u8, low: u8) -> u8 {
    (rex_bit << 3u8) | low
}

/// The index register number of a SIB byte.
pub open spec fn sib_index(byte: u8, prefix: Prefix) -> u8 {
    match prefix.rex {
        Some(r) => extended(r.x, (byte / 8) % 8),
        None => (byte / 8) % 8,
    }
}

/// The base register number of a SIB byte.
pub open spec fn sib_base(byte: u8, prefix: Prefix) -> u8 {
    match prefix.rex {
        Some(r) => extended(r.b, byte % 8),
        None => byte % 8,
    }
}

/// A register number extended by a single REX bit stays below sixteen.
pub proof fn lemma_extended_bound(rex_bit: u8, low: u8)
    requires
        rex_bit <= 1,
        low < 8,
    ensures
        extended(rex_bit, low) < 16,
        extended(rex_bit, low) == rex_bit * 8 + low,
{
    assert((rex_bit << 3u8) | low < 16 && (rex_bit << 3u8) | low == rex_bit * 8 + low)
        by (bit_vector)
        requires
            rex_bit <= 1,
            low < 8,
    ;
}

/// The scale factor of a SIB byte: two to the power of its top two bits.
pub open spec fn sib_scale(byte: u8) -> u8 {
    let s = byte / 64;
    if s == 0 {
        1
    } else if s == 1 {
        2
    } else if s == 2 {
        4
    } else {
        8
    }
}

/// The index register of a SIB byte; none (empty) for index 0b100.
pub open spec fn sib_index_text(byte: u8, prefix: Prefix, address_size: OperandSize) -> Seq<
    char,
> {
    if sib_index(byte, prefix) != 4 {
        register_text(sib_index(byte, prefix), address_size, true)
    } else {
        ""@
    }
}

/// The base register of a SIB byte; none (empty) for base 0b101 without
/// displacement, the `[scaled index] + disp32` form.
pub open spec fn sib_base_text(
    byte: u8,
    prefix: Prefix,
    addressing_mode: AddressingMode,
    address_size: OperandSize,
) -> Seq<char> {
    if sib_base(byte, prefix) != 5 || addressing_mode != AddressingMode::Memory {
        register_text(sib_base(byte, prefix), address_size, true)
    } else {
        ""@
    }
}

pub(crate) fn parse_sib(
    byte: u8,
    prefix: &Prefix,
    addressing_mode: AddressingMode,
    address_size: OperandSize,
) -> (sib: Sib)
    requires
        prefix.wf(),
    ensures
        sib.scale == sib_scale(byte),
        sib.index_reg@ == sib_index_text(byte, *prefix, address_size),
        sib.base_reg@ == sib_base_text(byte, *prefix, addressing_mode, address_size),
{
    let scale = (byte & (0b11 << SIB_SCALE_POS)) >> SIB_SCALE_POS;
    let mut index = (byte & (0b111 << SIB_INDEX_POS)) >> SIB_INDEX_POS;
    let mut base = byte & 0b111;
    assert(scale == byte / 64 && index == (byte / 8) % 8 && base == byte % 8) by (bit_vector)
        requires
            scale == (byte & (0b11u8 << 6u8)) >> 6u8,
            index == (byte & (0b111u8 << 3u8)) >> 3u8,
            base == byte & 0b111u8,
    ;
    if let Some(rex) = prefix.rex {
        index = (rex.x << 3) | index;
        base = (rex.b << 3) | base;
        proof {
            lemma_extended_bound(rex.x, (byte / 8) % 8);
            lemma_extended_bound(rex.b, byte % 8);
        }
    }
    let scale_value: u8 = if scale == 0 {
        1
    } else if scale == 1 {
        2
    } else if scale == 2 {
        4
    } else {
        8
    };
    let mut sib = Sib { scale: scale_value, index_reg: "", base_reg: "" };
    if index != 0b100 {
        // has_rex is not relevant here
        sib.index_reg = get_reg(index, address_size, true);
    }
    // If this is not [scaled index] + disp32 case
    // So if we don't want to have base register in SIB form,
    // we need to use AddressingMode::Memory with base = 0b101.
    if base != 0b101 || addressing_mode != AddressingMode::Memory {
        sib.base_reg = get_reg(base, address_size, true);
    }
    sib
}

} // verus!
