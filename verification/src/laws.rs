//! Properties of the disassembler as a whole.
use vstd::prelude::*;
use vstd::utf8::{
    encode_utf8, encode_utf8_valid_utf8, is_char_boundary,
    is_char_boundary_iff_not_is_continuation_byte, is_char_boundary_start_end_of_seq, valid_utf8,
    valid_utf8_concat,
};
use crate::decode::{
    after_read, alu_instruction, based_operand, call_instruction, disassembly, dispatch,
    invalid_digit_message, jcc_instruction, jcc_name, lea_instruction, lemma_step_progress,
    memory_operand, modrm_operands, modrm_rm, mov_imm_instruction, progress, push_line, read_value,
    reg_rm_instruction, repeat_prefix_step, rip_operand, run, sib_operand, step, take, take_imm,
    twos_complement, Fault, Outcome, ReadError, Step,
};
use crate::hex::{
    alt_hex, hex_digit_value, hex_digits_value, is_hex_digits, lemma_pow256_values,
    lemma_swap_bytes_bound, parse_radix16, pow256, swap_bytes,
};
use crate::operand::{
    fixed_up_8_bit, mode_of, register_map, register_text, AddressingMode, OperandSize, Prefix,
};

verus! {

/// A run that ends with a listing ends where a read of one more byte finds
/// the end of the input.
proof fn lemma_listing_ends_at_eof(
    bytes: Seq<u8>,
    base: u64,
    cur: int,
    prefix: Prefix,
    text: Seq<char>,
    listing: Seq<char>,
    end: int,
)
    requires
        run(bytes, base, cur, prefix, text) == Outcome::Finished(Ok(listing), end),
    ensures
        read_value(bytes, end, 1) == Err::<nat, ReadError>(ReadError::Eof),
    decreases progress(bytes, cur),
{
    lemma_step_progress(bytes, base, cur, prefix);
    match step(bytes, base, cur, prefix) {
        Step::Prefix(c, p) => {
            lemma_listing_ends_at_eof(bytes, base, c, p, text, listing, end);
        },
        Step::Instruction(c, t) => {
            lemma_listing_ends_at_eof(
                bytes,
                base,
                c,
                Prefix::empty(),
                push_line(text, t),
                listing,
                end,
            );
        },
        _ => {},
    }
}

/// A run that ends with an error ends where the characters are not
/// hexadecimal, with the message for them.
proof fn lemma_error_at_invalid_digit(
    bytes: Seq<u8>,
    base: u64,
    cur: int,
    prefix: Prefix,
    text: Seq<char>,
    message: Seq<char>,
    end: int,
)
    requires
        run(bytes, base, cur, prefix, text) == Outcome::Finished(Err(message), end),
    ensures
        read_value(bytes, end, 1) == Err::<nat, ReadError>(ReadError::InvalidDigit),
        message == invalid_digit_message(bytes, end),
    decreases progress(bytes, cur),
{
    lemma_step_progress(bytes, base, cur, prefix);
    match step(bytes, base, cur, prefix) {
        Step::Prefix(c, p) => {
            lemma_error_at_invalid_digit(bytes, base, c, p, text, message, end);
        },
        Step::Instruction(c, t) => {
            lemma_error_at_invalid_digit(
                bytes,
                base,
                c,
                Prefix::empty(),
                push_line(text, t),
                message,
                end,
            );
        },
        _ => {},
    }
}

/// Once disassembly has produced its listing, the input is exhausted:
/// disassembling again from where it stopped gives an empty listing and
/// stays there.
pub proof fn law_listing_exhausts_input(bytes: Seq<u8>, base: u64, start: int, listing: Seq<char>, end: int)
    requires
        disassembly(bytes, base, start) == Outcome::Finished(Ok(listing), end),
    ensures
        disassembly(bytes, base, end) == Outcome::Finished(Ok(Seq::<char>::empty()), end),
{
    lemma_listing_ends_at_eof(bytes, base, start, Prefix::empty(), Seq::empty(), listing, end);
    lemma_step_progress(bytes, base, end, Prefix::empty());
}

/// A refused input is refused again: disassembling again from where the
/// error stopped gives the same message and stays there.
pub proof fn law_error_repeats(bytes: Seq<u8>, base: u64, start: int, message: Seq<char>, end: int)
    requires
        disassembly(bytes, base, start) == Outcome::Finished(Err(message), end),
    ensures
        disassembly(bytes, base, end) == Outcome::Finished(Err(message), end),
{
    lemma_error_at_invalid_digit(bytes, base, start, Prefix::empty(), Seq::empty(), message, end);
    lemma_step_progress(bytes, base, end, Prefix::empty());
}

/// The byte that the two hexadecimal digits `high` and `low` spell.
pub open spec fn digit_pair(high: u8, low: u8) -> nat {
    hex_digit_value(high).unwrap() * 16 + hex_digit_value(low).unwrap()
}

/// The number whose bytes, least significant first, the digit pairs of `s`
/// spell.
pub open spec fn little_endian_pairs(s: Seq<u8>) -> nat
    decreases s.len(),
{
    if s.len() < 2 {
        0
    } else {
        digit_pair(s[0], s[1]) + 256 * little_endian_pairs(s.subrange(2, s.len() as int))
    }
}

proof fn lemma_little_endian_append(p: Seq<u8>, x: u8, y: u8)
    requires
        p.len() % 2 == 0,
    ensures
        little_endian_pairs(p + seq![x, y]) == little_endian_pairs(p) + pow256(p.len() / 2)
            * digit_pair(x, y),
    decreases p.len(),
{
    let s = p + seq![x, y];
    if p.len() == 0 {
        assert(s.subrange(2, s.len() as int) =~= Seq::<u8>::empty());
        assert(pow256(0) == 1);
        assert(s[0] == x && s[1] == y);
        assert(little_endian_pairs(s) == digit_pair(x, y) + 256 * little_endian_pairs(Seq::<u8>::empty()));
        assert(little_endian_pairs(p) == 0);
        assert(p.len() / 2 == 0);
        assert(little_endian_pairs(s) == little_endian_pairs(p) + pow256(p.len() / 2) * digit_pair(x, y));
    } else {
        let q = p.subrange(2, p.len() as int);
        assert(s[0] == p[0] && s[1] == p[1]);
        assert(s.subrange(2, s.len() as int) =~= q + seq![x, y]);
        lemma_little_endian_append(q, x, y);
        let k = (p.len() / 2) as nat;
        assert(q.len() / 2 == k - 1);
        assert(little_endian_pairs(s) == digit_pair(p[0], p[1]) + 256 * little_endian_pairs(
            q + seq![x, y],
        ));
        assert(little_endian_pairs(p) == digit_pair(p[0], p[1]) + 256 * little_endian_pairs(q));
        assert(pow256(k) == 256 * pow256((k - 1) as nat));
        assert(256 * (little_endian_pairs(q) + pow256((k - 1) as nat) * digit_pair(x, y)) == 256
            * little_endian_pairs(q) + pow256(k) * digit_pair(x, y)) by (nonlinear_arith)
            requires
                pow256(k) == 256 * pow256((k - 1) as nat),
        ;
        assert(little_endian_pairs(s) == little_endian_pairs(p) + pow256(k) * digit_pair(x, y));
    }
}

proof fn lemma_swap_is_little_endian(s: Seq<u8>, n: nat)
    requires
        s.len() == 2 * n,
        is_hex_digits(s),
    ensures
        swap_bytes(hex_digits_value(s), n) == little_endian_pairs(s),
    decreases n,
{
    if n == 0 {
        assert(s =~= Seq::<u8>::empty());
    } else {
        let p = s.subrange(0, s.len() - 2);
        let x = s[s.len() - 2];
        let y = s[s.len() - 1];
        assert(s =~= p + seq![x, y]);
        assert(s.drop_last() =~= p + seq![x]);
        assert((p + seq![x]).drop_last() =~= p);
        assert(is_hex_digits(p)) by {
            assert forall|i: int| 0 <= i < p.len() implies (#[trigger] hex_digit_value(p[i])) is Some by {
                assert(p[i] == s[i]);
            }
        }
        assert(hex_digit_value(x) is Some);
        assert(hex_digit_value(y) is Some);
        let hp = hex_digits_value(p);
        let pair = digit_pair(x, y);
        let vx = hex_digit_value(x).unwrap();
        let vy = hex_digit_value(y).unwrap();
        assert((p + seq![x]).last() == x);
        assert(hex_digits_value(p + seq![x]) == hp * 16 + vx);
        assert(hex_digits_value(s) == hex_digits_value(p + seq![x]) * 16 + vy);
        assert((hp * 16 + vx) * 16 + vy == hp * 256 + (vx * 16 + vy)) by (nonlinear_arith);
        assert(hex_digits_value(s) == hp * 256 + pair);
        assert(pair < 256);
        assert((hp * 256 + pair) % 256 == pair && (hp * 256 + pair) / 256 == hp) by (nonlinear_arith)
            requires
                pair < 256,
        ;
        lemma_swap_is_little_endian(p, (n - 1) as nat);
        lemma_little_endian_append(p, x, y);
        assert(p.len() / 2 == n - 1);
        assert(swap_bytes(hex_digits_value(s), n) == pair * pow256((n - 1) as nat) + swap_bytes(
            hp,
            (n - 1) as nat,
        ));
        assert(little_endian_pairs(s) == little_endian_pairs(p) + pow256((n - 1) as nat) * pair);
    }
}

/// Reading `n` bytes takes the digit pairs of the text as the bytes of a
/// little-endian number.
pub proof fn law_read_is_little_endian(bytes: Seq<u8>, cur: int, n: nat)
    requires
        n >= 1,
        0 <= cur,
        cur + 2 * n <= bytes.len(),
        cur + 2 * n <= usize::MAX,
        vstd::utf8::is_char_boundary(bytes, cur),
        vstd::utf8::is_char_boundary(bytes, cur + 2 * n),
        is_hex_digits(bytes.subrange(cur, cur + 2 * n)),
    ensures
        read_value(bytes, cur, n) == Ok::<nat, ReadError>(
            little_endian_pairs(bytes.subrange(cur, cur + 2 * n)),
        ),
{
    let s = bytes.subrange(cur, cur + 2 * n);
    assert(hex_digit_value(s[0]) is Some);
    lemma_swap_is_little_endian(s, n);
}

/// With a REX prefix, the 8-bit registers 4 to 7 are SPL, BPL, SIL and DIL
/// where they would be AH, CH, DH and BH; every other register keeps its
/// name, and at the other widths a REX prefix changes no name.
pub proof fn law_rex_renames_high_byte_registers(index: u8, size: OperandSize)
    requires
        index < 16,
    ensures
        (size == OperandSize::Size8Bit && 4 <= index < 8) ==> register_text(index, size, true)
            != register_text(index, size, false),
        !(size == OperandSize::Size8Bit && 4 <= index < 8) ==> register_text(index, size, true)
            == register_text(index, size, false),
        register_text(4, OperandSize::Size8Bit, true) == "spl"@,
        register_text(5, OperandSize::Size8Bit, true) == "bpl"@,
        register_text(6, OperandSize::Size8Bit, true) == "sil"@,
        register_text(7, OperandSize::Size8Bit, true) == "dil"@,
{
    reveal_strlit("ah");
    reveal_strlit("bh");
    reveal_strlit("ch");
    reveal_strlit("dh");
    reveal_strlit("spl");
    reveal_strlit("bpl");
    reveal_strlit("sil");
    reveal_strlit("dil");
    reveal_strlit("al");
    reveal_strlit("cl");
    reveal_strlit("dl");
    reveal_strlit("bl");
    reveal_strlit("r8b");
    reveal_strlit("r9b");
    reveal_strlit("r10b");
    reveal_strlit("r11b");
    reveal_strlit("r12b");
    reveal_strlit("r13b");
    reveal_strlit("r14b");
    reveal_strlit("r15b");
    assert("ah"@[0] != "bh"@[0] && "ah"@[0] != "ch"@[0] && "ah"@[0] != "dh"@[0]);
    assert("bh"@[0] != "ch"@[0] && "bh"@[0] != "dh"@[0] && "ch"@[0] != "dh"@[0]);
    let name = register_map(index as int, 3);
    if !(4 <= index < 8) {
        assert(name != "ah"@ && name != "bh"@ && name != "ch"@ && name != "dh"@) by {
            if index == 0 {
                assert(name[1] != "ah"@[1]);
            } else if index == 1 {
                assert(name[1] != "ah"@[1]);
            } else if index == 2 {
                assert(name[1] != "ah"@[1]);
            } else if index == 3 {
                assert(name[1] != "ah"@[1]);
            } else {
                assert(name.len() != 2);
            }
        }
        assert(fixed_up_8_bit(name) == name);
    } else {
        assert(fixed_up_8_bit(name).len() == 3);
    }
}

/// `x` and `y` are the same byte, or the same hexadecimal letter in the
/// other case.
pub open spec fn same_up_to_case(x: u8, y: u8) -> bool {
    x == y || (0x41 <= x <= 0x46 && y == x + 0x20) || (0x61 <= x <= 0x66 && y == x - 0x20)
}

/// `b` is `a` with some hexadecimal letters written in the other case.
pub open spec fn case_variant(a: Seq<u8>, b: Seq<u8>) -> bool {
    &&& a.len() == b.len()
    &&& forall|i: int| 0 <= i < a.len() ==> #[trigger] same_up_to_case(a[i], b[i])
}

proof fn lemma_hex_value_case(a: Seq<u8>, b: Seq<u8>)
    requires
        case_variant(a, b),
    ensures
        is_hex_digits(a) == is_hex_digits(b),
        hex_digits_value(a) == hex_digits_value(b),
    decreases a.len(),
{
    assert forall|i: int| 0 <= i < a.len() implies hex_digit_value(a[i]) == hex_digit_value(
        b[i],
    ) by {
        assert(same_up_to_case(a[i], b[i]));
    }
    if a.len() > 0 {
        let (p, q) = (a.drop_last(), b.drop_last());
        assert forall|i: int| 0 <= i < p.len() implies #[trigger] same_up_to_case(p[i], q[i]) by {
            assert(same_up_to_case(a[i], b[i]));
        }
        lemma_hex_value_case(p, q);
        assert(hex_digit_value(a.last()) == hex_digit_value(b.last()));
    }
    if is_hex_digits(a) {
        assert forall|i: int| 0 <= i < b.len() implies (#[trigger] hex_digit_value(b[i])) is Some by {
            assert(hex_digit_value(a[i]) is Some);
        }
    }
    if is_hex_digits(b) {
        assert forall|i: int| 0 <= i < a.len() implies (#[trigger] hex_digit_value(a[i])) is Some by {
            assert(hex_digit_value(b[i]) is Some);
        }
    }
}

proof fn lemma_boundary_case(a: Seq<u8>, b: Seq<u8>, i: int)
    requires
        valid_utf8(a),
        valid_utf8(b),
        case_variant(a, b),
    ensures
        is_char_boundary(a, i) == is_char_boundary(b, i),
{
    is_char_boundary_start_end_of_seq(a);
    is_char_boundary_start_end_of_seq(b);
    if 0 < i < a.len() {
        is_char_boundary_iff_not_is_continuation_byte(a, i);
        is_char_boundary_iff_not_is_continuation_byte(b, i);
        assert(same_up_to_case(a[i], b[i]));
    } else if i != 0 && i != a.len() {
        reveal_with_fuel(is_char_boundary, 1);
    }
}

proof fn lemma_read_case(a: Seq<u8>, b: Seq<u8>, cur: int, n: nat)
    requires
        valid_utf8(a),
        valid_utf8(b),
        case_variant(a, b),
    ensures
        read_value(a, cur, n) == read_value(b, cur, n),
{
    lemma_boundary_case(a, b, cur);
    lemma_boundary_case(a, b, cur + 2 * n);
    let end = cur + 2 * n;
    if 0 <= cur && end <= a.len() {
        let (sa, sb) = (a.subrange(cur, end), b.subrange(cur, end));
        assert forall|i: int| 0 <= i < sa.len() implies #[trigger] same_up_to_case(sa[i], sb[i]) by {
            assert(same_up_to_case(a[cur + i], b[cur + i]));
        }
        if n > 0 {
            assert(same_up_to_case(sa[0], sb[0]));
            let (da, db) = (sa.drop_first(), sb.drop_first());
            assert forall|i: int| 0 <= i < da.len() implies #[trigger] same_up_to_case(da[i], db[i]) by {
                assert(same_up_to_case(sa[i + 1], sb[i + 1]));
            }
            lemma_hex_value_case(da, db);
        }
        lemma_hex_value_case(sa, sb);
    }
}

/// Two steps that agree but for the text of an error message.
pub open spec fn same_step(s1: Step, s2: Step) -> bool {
    match (s1, s2) {
        (Step::Failed(_), Step::Failed(_)) => true,
        _ => s1 == s2,
    }
}

/// Every read gives the same result on `a` and on `b`.
pub open spec fn reads_agree(a: Seq<u8>, b: Seq<u8>) -> bool {
    forall|c: int, n: nat| #[trigger] read_value(a, c, n) == read_value(b, c, n)
}

proof fn lemma_operands_agree(
    a: Seq<u8>,
    b: Seq<u8>,
    cur: int,
    byte: u8,
    mode: AddressingMode,
    rm: u8,
    prefix: Prefix,
    size: OperandSize,
)
    requires
        reads_agree(a, b),
    ensures
        take(a, cur, 1) == take(b, cur, 1),
        take(a, cur, 4) == take(b, cur, 4),
        take_imm(a, cur, 8) == take_imm(b, cur, 8),
        take_imm(a, cur, 16) == take_imm(b, cur, 16),
        take_imm(a, cur, 32) == take_imm(b, cur, 32),
        take_imm(a, cur, 64) == take_imm(b, cur, 64),
        sib_operand(a, cur, mode, prefix) == sib_operand(b, cur, mode, prefix),
        rip_operand(a, cur) == rip_operand(b, cur),
        based_operand(a, cur, mode, rm, prefix) == based_operand(b, cur, mode, rm, prefix),
{
    assert(read_value(a, cur, 1) == read_value(b, cur, 1));
    assert(read_value(a, cur, 2) == read_value(b, cur, 2));
    assert(read_value(a, cur, 4) == read_value(b, cur, 4));
    assert(read_value(a, cur, 8) == read_value(b, cur, 8));
    if let Ok((c1, _)) = take(a, cur, 1) {
        assert(read_value(a, c1, 1) == read_value(b, c1, 1));
        assert(read_value(a, c1, 4) == read_value(b, c1, 4));
    }
    assert(based_operand(a, cur, mode, rm, prefix) == based_operand(b, cur, mode, rm, prefix));
}

proof fn lemma_modrm_agree(a: Seq<u8>, b: Seq<u8>, cur: int, byte: u8, prefix: Prefix, size: OperandSize)
    requires
        reads_agree(a, b),
    ensures
        modrm_operands(a, cur, byte, prefix, size) == modrm_operands(b, cur, byte, prefix, size),
{
    lemma_operands_agree(a, b, cur, byte, mode_of(byte), modrm_rm(byte, prefix), prefix, size);
    assert(memory_operand(a, cur, byte, prefix) == memory_operand(b, cur, byte, prefix));
}

proof fn lemma_instructions_agree(
    a: Seq<u8>,
    b: Seq<u8>,
    base: u64,
    cur: int,
    byte: u8,
    op: u8,
    prefix: Prefix,
)
    requires
        reads_agree(a, b),
    ensures
        reg_rm_instruction(a, cur, "sub"@, byte, prefix, 0x28, 0x2a, 0x29, 0x2b)
            == reg_rm_instruction(b, cur, "sub"@, byte, prefix, 0x28, 0x2a, 0x29, 0x2b),
        reg_rm_instruction(a, cur, "xor"@, byte, prefix, 0x30, 0x32, 0x31, 0x33)
            == reg_rm_instruction(b, cur, "xor"@, byte, prefix, 0x30, 0x32, 0x31, 0x33),
        reg_rm_instruction(a, cur, "mov"@, byte, prefix, 0x88, 0x8a, 0x89, 0x8b)
            == reg_rm_instruction(b, cur, "mov"@, byte, prefix, 0x88, 0x8a, 0x89, 0x8b),
        lea_instruction(a, cur, prefix) == lea_instruction(b, cur, prefix),
        alu_instruction(a, cur, prefix) == alu_instruction(b, cur, prefix),
        mov_imm_instruction(a, cur, byte, prefix) == mov_imm_instruction(b, cur, byte, prefix),
        call_instruction(a, base, cur) == call_instruction(b, base, cur),
        jcc_instruction(a, base, cur, op, 8) == jcc_instruction(b, base, cur, op, 8),
        jcc_instruction(a, base, cur, op, 32) == jcc_instruction(b, base, cur, op, 32),
        repeat_prefix_step(a, cur, prefix) == repeat_prefix_step(b, cur, prefix),
{
    lemma_operands_agree(a, b, cur, byte, AddressingMode::Memory, 0, prefix, OperandSize::Size8Bit);
    if let Ok((c1, v)) = take(a, cur, 1) {
        let m = v as u8;
        lemma_operands_agree(a, b, c1, m, AddressingMode::Memory, 0, prefix, OperandSize::Size8Bit);
        lemma_modrm_agree(a, b, c1, m, prefix, OperandSize::Size8Bit);
        lemma_modrm_agree(a, b, c1, m, prefix, prefix.operand_size());
    }
    let r1 = read_value(a, cur, 1);
    let c1 = after_read(r1, cur);
    let r2 = read_value(a, c1, 1);
    let c2 = after_read(r2, c1);
    assert(read_value(a, c1, 1) == read_value(b, c1, 1));
    assert(read_value(a, c2, 1) == read_value(b, c2, 1));
}

proof fn lemma_step_case(a: Seq<u8>, b: Seq<u8>, base: u64, cur: int, prefix: Prefix)
    requires
        valid_utf8(a),
        valid_utf8(b),
        case_variant(a, b),
    ensures
        same_step(step(a, base, cur, prefix), step(b, base, cur, prefix)),
{
    assert forall|c: int, n: nat| #[trigger] read_value(a, c, n) == read_value(b, c, n) by {
        lemma_read_case(a, b, c, n);
    }
    assert(read_value(a, cur, 1) == read_value(b, cur, 1));
    if let Ok(v) = read_value(a, cur, 1) {
        let c = cur + 2;
        let byte = v as u8;
        lemma_instructions_agree(a, b, base, c, byte, (byte - 0x70) as u8, prefix);
        lemma_instructions_agree(
            a,
            b,
            base,
            c,
            byte,
            (byte - 0x70) as u8,
            Prefix { group1_prefix: Some(byte), ..prefix },
        );
        if let Ok((c2, op)) = take(a, c, 1) {
            lemma_instructions_agree(a, b, base, c2, byte, (op - 0x80) as u8, prefix);
        }
        assert(dispatch(a, base, c, byte, prefix) == dispatch(b, base, c, byte, prefix));
    }
}

proof fn lemma_run_case(
    a: Seq<u8>,
    b: Seq<u8>,
    base: u64,
    cur: int,
    prefix: Prefix,
    text: Seq<char>,
)
    requires
        valid_utf8(a),
        valid_utf8(b),
        case_variant(a, b),
    ensures
        same_outcome(run(a, base, cur, prefix, text), run(b, base, cur, prefix, text)),
    decreases progress(a, cur),
{
    lemma_step_case(a, b, base, cur, prefix);
    lemma_step_progress(a, base, cur, prefix);
    match step(a, base, cur, prefix) {
        Step::Prefix(c, p) => {
            lemma_run_case(a, b, base, c, p, text);
        },
        Step::Instruction(c, t) => {
            lemma_run_case(a, b, base, c, Prefix::empty(), push_line(text, t));
        },
        _ => {},
    }
}

/// Two outcomes that agree but for the text of an error message.
pub open spec fn same_outcome(o1: Outcome, o2: Outcome) -> bool {
    match (o1, o2) {
        (Outcome::Finished(Err(_), c1), Outcome::Finished(Err(_), c2)) => c1 == c2,
        _ => o1 == o2,
    }
}

/// Hexadecimal letters may be written in either case: the listing, the
/// position where a run ends and the fault are the same, and an error comes
/// at the same place (its message quotes the characters as written).
pub proof fn law_letter_case_is_irrelevant(t1: Seq<char>, t2: Seq<char>, base: u64, start: int)
    requires
        case_variant(encode_utf8(t1), encode_utf8(t2)),
    ensures
        same_outcome(
            disassembly(encode_utf8(t1), base, start),
            disassembly(encode_utf8(t2), base, start),
        ),
{
    encode_utf8_valid_utf8(t1);
    encode_utf8_valid_utf8(t2);
    lemma_run_case(encode_utf8(t1), encode_utf8(t2), base, start, Prefix::empty(), Seq::empty());
}

/// The REX renaming of 8-bit registers is idempotent: a renamed register
/// is not renamed again.
pub proof fn law_fix_up_is_idempotent(name: Seq<char>)
    ensures
        fixed_up_8_bit(fixed_up_8_bit(name)) == fixed_up_8_bit(name),
{
    reveal_strlit("ah");
    reveal_strlit("bh");
    reveal_strlit("ch");
    reveal_strlit("dh");
    reveal_strlit("spl");
    reveal_strlit("dil");
    reveal_strlit("bpl");
    reveal_strlit("sil");
    let r = fixed_up_8_bit(name);
    if r != name {
        assert(r.len() == 3);
        assert(r != "ah"@ && r != "bh"@ && r != "ch"@ && r != "dh"@);
    }
}

/// One line of a listing: text that does not depend on where the code is
/// loaded, or a branch (`call`, `j<cc>`) to a target given for base 0.
pub enum Line {
    Plain(Seq<char>),
    Branch(Seq<char>, nat),
}

/// The mnemonics whose operand is a branch target.
pub open spec fn is_branch_name(name: Seq<char>) -> bool {
    name == "call"@ || exists|op: u8| op < 16 && name == jcc_name(op)
}

/// The line as written for code loaded at `base`: a branch target moves by
/// `base`, modulo 2^64.
pub open spec fn render(line: Line, base: u64) -> Seq<char> {
    match line {
        Line::Plain(text) => text,
        Line::Branch(name, target) => name + " "@ + alt_hex(
            ((target + base) % 0x1_0000_0000_0000_0000) as nat,
        ),
    }
}

/// The lines, each as written for code loaded at `base`, one per line.
pub open spec fn render_listing(lines: Seq<Line>, base: u64) -> Seq<char>
    decreases lines.len(),
{
    if lines.len() == 0 {
        Seq::empty()
    } else {
        push_line(render_listing(lines.drop_last(), base), render(lines.last(), base))
    }
}

/// Every branch line names a branch mnemonic and a 64-bit target.
pub open spec fn branches_well_formed(lines: Seq<Line>) -> bool {
    forall|i: int|
        0 <= i < lines.len() ==> (#[trigger] lines[i] matches Line::Branch(name, target) ==> (
        is_branch_name(name) && target < 0x1_0000_0000_0000_0000))
}

/// `v % m` for `v` below twice `m`.
proof fn lemma_mod_below_twice(v: int, m: int)
    requires
        m > 0,
        0 <= v < 2 * m,
    ensures
        v % m == (if v < m {
            v
        } else {
            v - m
        }),
{
    if v < m {
        assert(v % m == v) by (nonlinear_arith)
            requires
                m > 0,
                0 <= v < m,
        ;
    } else {
        assert(v % m == v - m) by (nonlinear_arith)
            requires
                m > 0,
                m <= v < 2 * m,
        ;
    }
}

/// A conditional jump decoded for base `b` is the one for base 0 with its
/// target moved.
proof fn lemma_jcc_base(bytes: Seq<u8>, b: u64, cur: int, op: u8, bits: u8) -> (line: Line)
    requires
        op < 16,
        jcc_instruction(bytes, 0, cur, op, bits) is Ok,
        jcc_instruction(bytes, b, cur, op, bits) is Ok,
    ensures
        jcc_instruction(bytes, 0, cur, op, bits) == Ok::<(int, Seq<char>), Fault>(
            (jcc_instruction(bytes, 0, cur, op, bits)->Ok_0.0, render(line, 0)),
        ),
        jcc_instruction(bytes, b, cur, op, bits) == Ok::<(int, Seq<char>), Fault>(
            (jcc_instruction(bytes, 0, cur, op, bits)->Ok_0.0, render(line, b)),
        ),
        line matches Line::Branch(name, target) && is_branch_name(name) && target
            < 0x1_0000_0000_0000_0000,
{
    let m: int = 0x1_0000_0000_0000_0000;
    let (c1, d) = take_imm(bytes, cur, bits)->Ok_0;
    let s0 = c1 / 2 + twos_complement(d, 8);
    lemma_mod_below_twice(s0 + b, m);
    assert(is_branch_name(jcc_name(op)));
    Line::Branch(jcc_name(op), s0 as nat)
}

/// A call decoded for base `b` is the one for base 0 with its target moved.
proof fn lemma_call_base(bytes: Seq<u8>, b: u64, cur: int) -> (line: Line)
    requires
        call_instruction(bytes, 0, cur) is Ok,
        call_instruction(bytes, b, cur) is Ok,
    ensures
        call_instruction(bytes, 0, cur) == Ok::<(int, Seq<char>), Fault>(
            (call_instruction(bytes, 0, cur)->Ok_0.0, render(line, 0)),
        ),
        call_instruction(bytes, b, cur) == Ok::<(int, Seq<char>), Fault>(
            (call_instruction(bytes, 0, cur)->Ok_0.0, render(line, b)),
        ),
        line matches Line::Branch(name, target) && is_branch_name(name) && target
            < 0x1_0000_0000_0000_0000,
{
    let m: int = 0x1_0000_0000_0000_0000;
    reveal_strlit("call");
    reveal_strlit(" ");
    reveal_strlit("call ");
    assert("call"@ + " "@ =~= "call "@);
    let (c1, d) = take_imm(bytes, cur, 32)->Ok_0;
    let t = twos_complement(d, 8);
    let s0 = c1 / 2 + t;
    let target0 = if s0 > u64::MAX {
        s0 - m
    } else {
        s0
    };
    lemma_pow256_values();
    let num = parse_radix16(bytes.subrange(cur, cur + 8)).unwrap();
    lemma_swap_bytes_bound(num, 4);
    assert(t < m);
    lemma_mod_below_twice(target0 + b, m);
    Line::Branch("call"@, target0 as nat)
}

/// A step at base `b` is the step at base 0 with its branch target moved.
proof fn lemma_step_base(bytes: Seq<u8>, b: u64, cur: int, prefix: Prefix) -> (line: Line)
    requires
        !(step(bytes, 0, cur, prefix) is Crash),
        !(step(bytes, b, cur, prefix) is Crash),
    ensures
        match step(bytes, 0, cur, prefix) {
            Step::Instruction(c, t) => t == render(line, 0) && step(bytes, b, cur, prefix)
                == Step::Instruction(c, render(line, b)) && (line matches Line::Branch(
                name,
                target,
            ) ==> (is_branch_name(name) && target < 0x1_0000_0000_0000_0000)),
            s0 => step(bytes, b, cur, prefix) == s0,
        },
{
    if let Ok(v) = read_value(bytes, cur, 1) {
        let c = cur + 2;
        let byte = v as u8;
        if byte == 0x0f {
            if let Ok((c2, op)) = take(bytes, c, 1) {
                if 0x80 <= op <= 0x8f {
                    return lemma_jcc_base(bytes, b, c2, (op - 0x80) as u8, 32);
                }
            }
            return Line::Plain(Seq::empty());
        } else if 0x70 <= byte <= 0x7f {
            return lemma_jcc_base(bytes, b, c, (byte - 0x70) as u8, 8);
        } else if byte == 0xe8 {
            return lemma_call_base(bytes, b, c);
        } else {
            assert(dispatch(bytes, 0, c, byte, prefix) == dispatch(bytes, b, c, byte, prefix));
        }
    }
    match step(bytes, 0, cur, prefix) {
        Step::Instruction(_, t) => Line::Plain(t),
        _ => Line::Plain(Seq::empty()),
    }
}

proof fn lemma_run_base(bytes: Seq<u8>, b: u64, cur: int, prefix: Prefix, lines: Seq<Line>) -> (all:
    Seq<Line>)
    requires
        branches_well_formed(lines),
        !(run(bytes, 0, cur, prefix, render_listing(lines, 0)) is Crashed),
        !(run(bytes, b, cur, prefix, render_listing(lines, b)) is Crashed),
    ensures
        branches_well_formed(all),
        match (
            run(bytes, 0, cur, prefix, render_listing(lines, 0)),
            run(bytes, b, cur, prefix, render_listing(lines, b)),
        ) {
            (Outcome::Finished(Ok(l0), e0), Outcome::Finished(Ok(lb), eb)) => e0 == eb && l0
                == render_listing(all, 0) && lb == render_listing(all, b),
            (Outcome::Finished(Err(m0), e0), Outcome::Finished(Err(mb), eb)) => m0 == mb && e0
                == eb,
            _ => false,
        },
    decreases progress(bytes, cur),
{
    lemma_step_progress(bytes, 0, cur, prefix);
    let line = lemma_step_base(bytes, b, cur, prefix);
    match step(bytes, 0, cur, prefix) {
        Step::Prefix(c, p) => lemma_run_base(bytes, b, c, p, lines),
        Step::Instruction(c, t) => {
            let more = lines.push(line);
            assert(more.drop_last() =~= lines);
            assert forall|i: int| 0 <= i < more.len() implies (#[trigger] more[i] matches Line::Branch(
                name,
                target,
            ) ==> (is_branch_name(name) && target < 0x1_0000_0000_0000_0000)) by {
                if i < lines.len() {
                    assert(more[i] == lines[i]);
                }
            }
            lemma_run_base(bytes, b, c, Prefix::empty(), more)
        },
        _ => lines,
    }
}

/// The base address moves branch targets and nothing else: where code
/// loaded at 0 and at `base` both decode without a fault, the two runs end
/// at the same place; errors are the same; and the two listings are the
/// same lines, but that each `call` or `j<cc>` target `T` reads
/// `(T + base) mod 2^64`.
pub proof fn law_base_moves_only_branch_targets(bytes: Seq<u8>, base: u64, start: int) -> (lines:
    Seq<Line>)
    requires
        !(disassembly(bytes, 0, start) is Crashed),
        !(disassembly(bytes, base, start) is Crashed),
    ensures
        branches_well_formed(lines),
        match (disassembly(bytes, 0, start), disassembly(bytes, base, start)) {
            (Outcome::Finished(Ok(l0), e0), Outcome::Finished(Ok(lb), eb)) => e0 == eb && l0
                == render_listing(lines, 0) && lb == render_listing(lines, base),
            (Outcome::Finished(Err(m0), e0), Outcome::Finished(Err(mb), eb)) => m0 == mb && e0
                == eb,
            _ => false,
        },
{
    let none = Seq::<Line>::empty();
    assert(render_listing(none, 0) == Seq::<char>::empty());
    assert(render_listing(none, base) == Seq::<char>::empty());
    lemma_run_base(bytes, base, start, Prefix::empty(), none)
}

/// Every read that succeeds in `x` at position `c` succeeds in `y` at
/// position `c + k` with the same value.
spec fn reads_embed(x: Seq<u8>, y: Seq<u8>, k: int) -> bool {
    forall|c: int, n: nat|
        #![trigger read_value(x, c, n)]
        read_value(x, c, n) is Ok ==> read_value(y, c + k, n) == read_value(x, c, n)
}

/// `y` holds `x` at position `k`, and both ends of it are character
/// boundaries of `y`: then the boundaries of `x` are those of `y`, moved.
proof fn lemma_boundary_embed(x: Seq<u8>, y: Seq<u8>, k: int, i: int)
    requires
        valid_utf8(x),
        valid_utf8(y),
        0 <= k,
        k + x.len() <= y.len(),
        x =~= y.subrange(k, k + x.len()),
        is_char_boundary(y, k),
        is_char_boundary(y, k + x.len()),
        0 <= i <= x.len(),
    ensures
        is_char_boundary(x, i) == is_char_boundary(y, i + k),
{
    is_char_boundary_start_end_of_seq(x);
    if 0 < i < x.len() {
        is_char_boundary_iff_not_is_continuation_byte(x, i);
        is_char_boundary_iff_not_is_continuation_byte(y, i + k);
        assert(x[i] == y[i + k]);
    }
}

proof fn lemma_reads_embed(x: Seq<u8>, y: Seq<u8>, k: int)
    requires
        valid_utf8(x),
        valid_utf8(y),
        0 <= k,
        k + x.len() <= y.len(),
        y.len() <= usize::MAX,
        x =~= y.subrange(k, k + x.len()),
        is_char_boundary(y, k),
        is_char_boundary(y, k + x.len()),
    ensures
        reads_embed(x, y, k),
{
    assert forall|c: int, n: nat|
        #![trigger read_value(x, c, n)]
        read_value(x, c, n) is Ok implies read_value(y, c + k, n) == read_value(x, c, n) by {
        let end = c + 2 * n;
        lemma_boundary_embed(x, y, k, c);
        lemma_boundary_embed(x, y, k, end);
        assert(y.subrange(c + k, end + k) =~= x.subrange(c, end));
    }
}

/// In `a + b`, the ends of `a` and of `b` are character boundaries.
proof fn lemma_concat_boundaries(a: Seq<u8>, b: Seq<u8>)
    requires
        valid_utf8(a),
        valid_utf8(b),
    ensures
        valid_utf8(a + b),
        is_char_boundary(a + b, 0),
        is_char_boundary(a + b, a.len() as int),
        is_char_boundary(a + b, (a.len() + b.len()) as int),
        a =~= (a + b).subrange(0, a.len() as int),
        b =~= (a + b).subrange(a.len() as int, (a.len() + b.len()) as int),
{
    let y = a + b;
    valid_utf8_concat(a, b);
    is_char_boundary_start_end_of_seq(y);
    is_char_boundary_start_end_of_seq(b);
    if a.len() > 0 && b.len() > 0 {
        is_char_boundary_iff_not_is_continuation_byte(b, 0);
        is_char_boundary_iff_not_is_continuation_byte(y, a.len() as int);
        assert(y[a.len() as int] == b[0]);
    }
}

/// Where `r` succeeds, `s` gives the same value at the position moved by `k`.
spec fn moved<T>(r: Result<(int, T), Fault>, s: Result<(int, T), Fault>, k: int) -> bool {
    match r {
        Ok((c, v)) => s == Ok::<(int, T), Fault>((c + k, v)),
        Err(_) => true,
    }
}

proof fn lemma_operands_embed(
    x: Seq<u8>,
    y: Seq<u8>,
    k: int,
    cur: int,
    mode: AddressingMode,
    rm: u8,
    prefix: Prefix,
)
    requires
        reads_embed(x, y, k),
    ensures
        moved(take(x, cur, 1), take(y, cur + k, 1), k),
        moved(take(x, cur, 4), take(y, cur + k, 4), k),
        moved(take_imm(x, cur, 8), take_imm(y, cur + k, 8), k),
        moved(take_imm(x, cur, 16), take_imm(y, cur + k, 16), k),
        moved(take_imm(x, cur, 32), take_imm(y, cur + k, 32), k),
        moved(take_imm(x, cur, 64), take_imm(y, cur + k, 64), k),
        moved(sib_operand(x, cur, mode, prefix), sib_operand(y, cur + k, mode, prefix), k),
        moved(rip_operand(x, cur), rip_operand(y, cur + k), k),
        moved(based_operand(x, cur, mode, rm, prefix), based_operand(y, cur + k, mode, rm, prefix), k),
{
    if let Ok((c1, _)) = take(x, cur, 1) {
        assert(read_value(x, c1, 1) is Ok ==> read_value(y, c1 + k, 1) == read_value(x, c1, 1));
        assert(read_value(x, c1, 4) is Ok ==> read_value(y, c1 + k, 4) == read_value(x, c1, 4));
    }
}

proof fn lemma_modrm_embed(
    x: Seq<u8>,
    y: Seq<u8>,
    k: int,
    cur: int,
    byte: u8,
    prefix: Prefix,
    size: OperandSize,
)
    requires
        reads_embed(x, y, k),
    ensures
        modrm_operands(x, cur, byte, prefix, size) matches Ok((c, reg, rm)) ==> modrm_operands(
            y,
            cur + k,
            byte,
            prefix,
            size,
        ) == Ok::<(int, Seq<char>, Seq<char>), Fault>((c + k, reg, rm)),
{
    lemma_operands_embed(x, y, k, cur, mode_of(byte), modrm_rm(byte, prefix), prefix);
    assert(moved(memory_operand(x, cur, byte, prefix), memory_operand(y, cur + k, byte, prefix), k));
}

/// Every instruction form read in `x` reads the same in `y`, moved by an
/// even `k`, where the base address of `x` is that of `y` plus `k / 2`.
proof fn lemma_instructions_embed(
    x: Seq<u8>,
    y: Seq<u8>,
    k: int,
    bx: u64,
    by: u64,
    cur: int,
    byte: u8,
    op: u8,
    prefix: Prefix,
)
    requires
        reads_embed(x, y, k),
        k % 2 == 0,
        bx == by + k / 2,
    ensures
        moved(
            reg_rm_instruction(x, cur, "sub"@, byte, prefix, 0x28, 0x2a, 0x29, 0x2b),
            reg_rm_instruction(y, cur + k, "sub"@, byte, prefix, 0x28, 0x2a, 0x29, 0x2b),
            k,
        ),
        moved(
            reg_rm_instruction(x, cur, "xor"@, byte, prefix, 0x30, 0x32, 0x31, 0x33),
            reg_rm_instruction(y, cur + k, "xor"@, byte, prefix, 0x30, 0x32, 0x31, 0x33),
            k,
        ),
        moved(
            reg_rm_instruction(x, cur, "mov"@, byte, prefix, 0x88, 0x8a, 0x89, 0x8b),
            reg_rm_instruction(y, cur + k, "mov"@, byte, prefix, 0x88, 0x8a, 0x89, 0x8b),
            k,
        ),
        moved(lea_instruction(x, cur, prefix), lea_instruction(y, cur + k, prefix), k),
        moved(alu_instruction(x, cur, prefix), alu_instruction(y, cur + k, prefix), k),
        moved(mov_imm_instruction(x, cur, byte, prefix), mov_imm_instruction(y, cur + k, byte, prefix), k),
        moved(call_instruction(x, bx, cur), call_instruction(y, by, cur + k), k),
        moved(jcc_instruction(x, bx, cur, op, 8), jcc_instruction(y, by, cur + k, op, 8), k),
        moved(jcc_instruction(x, bx, cur, op, 32), jcc_instruction(y, by, cur + k, op, 32), k),
        repeat_prefix_step(x, cur, prefix) matches Step::Instruction(c, t) ==> repeat_prefix_step(
            y,
            cur + k,
            prefix,
        ) == Step::Instruction(c + k, t),
{
    lemma_operands_embed(x, y, k, cur, AddressingMode::Memory, 0, prefix);
    if let Ok((c1, v)) = take(x, cur, 1) {
        let m = v as u8;
        lemma_modrm_embed(x, y, k, c1, m, prefix, OperandSize::Size8Bit);
        lemma_modrm_embed(x, y, k, c1, m, prefix, prefix.operand_size());
        lemma_operands_embed(x, y, k, c1, AddressingMode::Memory, 0, prefix);
    }
    if let Ok((c, _)) = take_imm(x, cur, 8) {
        assert((c + k) / 2 == c / 2 + k / 2);
    }
    if let Ok((c, _)) = take_imm(x, cur, 32) {
        assert((c + k) / 2 == c / 2 + k / 2);
    }
    let r1 = read_value(x, cur, 1);
    let c1 = after_read(r1, cur);
    let r2 = read_value(x, c1, 1);
    let c2 = after_read(r2, c1);
    assert(read_value(x, c1, 1) is Ok ==> read_value(y, c1 + k, 1) == read_value(x, c1, 1));
    assert(read_value(x, c2, 1) is Ok ==> read_value(y, c2 + k, 1) == read_value(x, c2, 1));
}

/// A step that reads an instruction, or a prefix other than 0xf3 (which
/// looks past itself), reads the same in `y`, moved by `k`.
proof fn lemma_step_embed(x: Seq<u8>, y: Seq<u8>, k: int, bx: u64, by: u64, cur: int, prefix: Prefix)
    requires
        reads_embed(x, y, k),
        k % 2 == 0,
        bx == by + k / 2,
    ensures
        match step(x, bx, cur, prefix) {
            Step::Instruction(c, t) => step(y, by, cur + k, prefix) == Step::Instruction(c + k, t),
            Step::Prefix(c, p) => read_value(x, cur, 1) != Ok::<nat, ReadError>(0xf3) ==> step(
                y,
                by,
                cur + k,
                prefix,
            ) == Step::Prefix(c + k, p),
            _ => true,
        },
{
    if let Ok(v) = read_value(x, cur, 1) {
        let c = cur + 2;
        let byte = v as u8;
        lemma_instructions_embed(x, y, k, bx, by, c, byte, (byte - 0x70) as u8, prefix);
        lemma_instructions_embed(
            x,
            y,
            k,
            bx,
            by,
            c,
            byte,
            (byte - 0x70) as u8,
            Prefix { group1_prefix: Some(byte), ..prefix },
        );
        if let Ok((c2, op)) = take(x, c, 1) {
            lemma_instructions_embed(x, y, k, bx, by, c2, byte, (op - 0x80) as u8, prefix);
        }
        let num = parse_radix16(x.subrange(cur, c)).unwrap();
        lemma_swap_bytes_bound(num, 1);
        lemma_pow256_values();
        assert(read_value(y, cur + k, 1) == Ok::<nat, ReadError>(v));
    }
}

/// Where `r` succeeds, it moves from `cur` by whole bytes.
spec fn even_move<T>(r: Result<(int, T), Fault>, cur: int) -> bool {
    r matches Ok((c, _)) ==> (c - cur) % 2 == 0
}

proof fn lemma_operands_even(x: Seq<u8>, cur: int, mode: AddressingMode, rm: u8, prefix: Prefix)
    ensures
        even_move(take(x, cur, 1), cur),
        even_move(take_imm(x, cur, 8), cur),
        even_move(take_imm(x, cur, 16), cur),
        even_move(take_imm(x, cur, 32), cur),
        even_move(take_imm(x, cur, 64), cur),
        even_move(sib_operand(x, cur, mode, prefix), cur),
        even_move(rip_operand(x, cur), cur),
        even_move(based_operand(x, cur, mode, rm, prefix), cur),
{
}

#[verifier::rlimit(60)]
proof fn lemma_instructions_even(x: Seq<u8>, base: u64, cur: int, byte: u8, op: u8, prefix: Prefix)
    ensures
        even_move(reg_rm_instruction(x, cur, "sub"@, byte, prefix, 0x28, 0x2a, 0x29, 0x2b), cur),
        even_move(reg_rm_instruction(x, cur, "xor"@, byte, prefix, 0x30, 0x32, 0x31, 0x33), cur),
        even_move(reg_rm_instruction(x, cur, "mov"@, byte, prefix, 0x88, 0x8a, 0x89, 0x8b), cur),
        even_move(lea_instruction(x, cur, prefix), cur),
        even_move(alu_instruction(x, cur, prefix), cur),
        even_move(mov_imm_instruction(x, cur, byte, prefix), cur),
        even_move(call_instruction(x, base, cur), cur),
        even_move(jcc_instruction(x, base, cur, op, 8), cur),
        even_move(jcc_instruction(x, base, cur, op, 32), cur),
        repeat_prefix_step(x, cur, prefix) matches Step::Instruction(c, _) ==> (c - cur) % 2 == 0,
{
    lemma_operands_even(x, cur, AddressingMode::Memory, 0, prefix);
    if let Ok((c1, v)) = take(x, cur, 1) {
        let m = v as u8;
        lemma_operands_even(x, c1, mode_of(m), modrm_rm(m, prefix), prefix);
        assert(even_move(memory_operand(x, c1, m, prefix), c1));
    }
}

/// Every step that reads an instruction, or a prefix other than 0xf3,
/// moves by whole bytes.
#[verifier::rlimit(60)]
proof fn lemma_step_even(x: Seq<u8>, base: u64, cur: int, prefix: Prefix)
    ensures
        match step(x, base, cur, prefix) {
            Step::Instruction(c, _) => (c - cur) % 2 == 0,
            Step::Prefix(c, _) => read_value(x, cur, 1) != Ok::<nat, ReadError>(0xf3) ==> (c
                - cur) % 2 == 0,
            _ => true,
        },
{
    if let Ok(v) = read_value(x, cur, 1) {
        let c = cur + 2;
        let num = parse_radix16(x.subrange(cur, c)).unwrap();
        lemma_swap_bytes_bound(num, 1);
        lemma_pow256_values();
        let byte = v as u8;
        assert(byte == v);
        if byte == 0xf3 {
            let p = Prefix { group1_prefix: Some(byte), ..prefix };
            lemma_instructions_even(x, base, c, byte, 0, p);
            assert(step(x, base, cur, prefix) == repeat_prefix_step(x, c, p));
        } else if byte == 0x0f {
            if let Ok((c2, op)) = take(x, c, 1) {
                lemma_instructions_even(x, base, c2, byte, (op - 0x80) as u8, prefix);
            }
        } else {
            lemma_instructions_even(x, base, c, byte, (byte - 0x70) as u8, prefix);
            assert(step(x, base, cur, prefix) == dispatch(x, base, c, byte, prefix));
        }
    }
}

/// Where `r` succeeds, the instruction text is not empty.
spec fn has_text(r: Result<(int, Seq<char>), Fault>) -> bool {
    r matches Ok((_, t)) ==> t.len() > 0
}

#[verifier::rlimit(30)]
proof fn lemma_instructions_text(x: Seq<u8>, base: u64, cur: int, byte: u8, op: u8, prefix: Prefix)
    ensures
        has_text(reg_rm_instruction(x, cur, "sub"@, byte, prefix, 0x28, 0x2a, 0x29, 0x2b)),
        has_text(reg_rm_instruction(x, cur, "xor"@, byte, prefix, 0x30, 0x32, 0x31, 0x33)),
        has_text(reg_rm_instruction(x, cur, "mov"@, byte, prefix, 0x88, 0x8a, 0x89, 0x8b)),
        has_text(lea_instruction(x, cur, prefix)),
        has_text(alu_instruction(x, cur, prefix)),
        has_text(mov_imm_instruction(x, cur, byte, prefix)),
        has_text(call_instruction(x, base, cur)),
        has_text(jcc_instruction(x, base, cur, op, 8)),
        has_text(jcc_instruction(x, base, cur, op, 32)),
        repeat_prefix_step(x, cur, prefix) matches Step::Instruction(_, t) ==> t.len() > 0,
{
    reveal_strlit(" ");
    reveal_strlit("mov ");
    reveal_strlit("lea ");
    reveal_strlit("call ");
    reveal_strlit("endbr64");
}

/// Every instruction is written with some text.
proof fn lemma_step_text(x: Seq<u8>, base: u64, cur: int, prefix: Prefix)
    ensures
        step(x, base, cur, prefix) matches Step::Instruction(_, t) ==> t.len() > 0,
{
    reveal_strlit("push ");
    reveal_strlit("ret");
    reveal_strlit("leave");
    if let Ok(v) = read_value(x, cur, 1) {
        let c = cur + 2;
        let num = parse_radix16(x.subrange(cur, c)).unwrap();
        lemma_swap_bytes_bound(num, 1);
        lemma_pow256_values();
        let byte = v as u8;
        assert(byte == v);
        if byte == 0xf3 {
            let p = Prefix { group1_prefix: Some(byte), ..prefix };
            lemma_instructions_text(x, base, c, byte, 0, p);
            assert(step(x, base, cur, prefix) == repeat_prefix_step(x, c, p));
        } else if byte == 0x0f {
            if let Ok((c2, op)) = take(x, c, 1) {
                lemma_instructions_text(x, base, c2, byte, (op - 0x80) as u8, prefix);
            }
        } else {
            lemma_instructions_text(x, base, c, byte, (byte - 0x70) as u8, prefix);
            assert(step(x, base, cur, prefix) == dispatch(x, base, c, byte, prefix));
        }
    }
}

/// From position `cur`, with the prefixes `prefix` read, `x` decodes into
/// whole instructions up to its very end: each step reads an instruction
/// or a prefix (0xf3 only as part of `endbr64`), and the input ends where
/// an instruction does.
pub open spec fn decodes_whole(x: Seq<u8>, base: u64, cur: int, prefix: Prefix) -> bool
    decreases progress(x, cur),
{
    proof {
        lemma_step_progress(x, base, cur, prefix);
    }
    match step(x, base, cur, prefix) {
        Step::Eof => cur == x.len() && prefix == Prefix::empty(),
        Step::Prefix(c, p) => read_value(x, cur, 1) != Ok::<nat, ReadError>(0xf3) && decodes_whole(
            x,
            base,
            c,
            p,
        ),
        Step::Instruction(c, _) => decodes_whole(x, base, c, Prefix::empty()),
        _ => false,
    }
}

/// Two listings one after the other: a line break between them where both
/// have lines.
pub open spec fn join_text(first: Seq<char>, second: Seq<char>) -> Seq<char> {
    if first.len() == 0 {
        second
    } else if second.len() == 0 {
        first
    } else {
        first + "\n"@ + second
    }
}

/// Input that decodes whole from `cur` on holds whole bytes from there.
proof fn lemma_whole_even(x: Seq<u8>, base: u64, cur: int, prefix: Prefix)
    requires
        decodes_whole(x, base, cur, prefix),
    ensures
        (x.len() - cur) % 2 == 0,
    decreases progress(x, cur),
{
    lemma_step_progress(x, base, cur, prefix);
    lemma_step_even(x, base, cur, prefix);
    match step(x, base, cur, prefix) {
        Step::Prefix(c, p) => {
            lemma_whole_even(x, base, c, p);
            lemma_even_sum(x.len() - c, c - cur);
        },
        Step::Instruction(c, _) => {
            lemma_whole_even(x, base, c, Prefix::empty());
            lemma_even_sum(x.len() - c, c - cur);
        },
        _ => {},
    }
}

proof fn lemma_even_sum(i: int, j: int)
    requires
        i % 2 == 0,
        j % 2 == 0,
    ensures
        (i + j) % 2 == 0,
{
}

/// The run over `a` inside `y`, which starts with `a`, reaches the end of
/// `a` with the listing of `a`.
proof fn lemma_run_head(a: Seq<u8>, y: Seq<u8>, base: u64, cur: int, prefix: Prefix, text: Seq<char>) -> (listing:
    Seq<char>)
    requires
        reads_embed(a, y, 0),
        decodes_whole(a, base, cur, prefix),
    ensures
        run(a, base, cur, prefix, text) == Outcome::Finished(Ok(listing), a.len() as int),
        run(y, base, cur, prefix, text) == run(y, base, a.len() as int, Prefix::empty(), listing),
    decreases progress(a, cur),
{
    lemma_step_progress(a, base, cur, prefix);
    lemma_step_embed(a, y, 0, base, base, cur, prefix);
    match step(a, base, cur, prefix) {
        Step::Prefix(c, p) => {
            assert(step(y, base, cur, prefix) == Step::Prefix(c, p));
            lemma_run_head(a, y, base, c, p, text)
        },
        Step::Instruction(c, t) => {
            assert(step(y, base, cur, prefix) == Step::Instruction(c, t));
            lemma_run_head(a, y, base, c, Prefix::empty(), push_line(text, t))
        },
        _ => text,
    }
}

/// The run over `b` inside `y`, which ends with `b` from position `k` on,
/// is the run over `b` alone loaded `k / 2` bytes further on.
proof fn lemma_run_tail(
    b: Seq<u8>,
    y: Seq<u8>,
    k: int,
    base: u64,
    cur: int,
    prefix: Prefix,
    text: Seq<char>,
) -> (listing: Seq<char>)
    requires
        reads_embed(b, y, k),
        k % 2 == 0,
        0 <= k,
        y.len() == k + b.len(),
        y.len() + 2 <= usize::MAX,
        base + k / 2 <= u64::MAX,
        decodes_whole(b, (base + k / 2) as u64, cur, prefix),
    ensures
        run(b, (base + k / 2) as u64, cur, prefix, text) == Outcome::Finished(
            Ok(listing),
            b.len() as int,
        ),
        run(y, base, cur + k, prefix, text) == Outcome::Finished(Ok(listing), y.len() as int),
    decreases progress(b, cur),
{
    let bb = (base + k / 2) as u64;
    lemma_step_progress(b, bb, cur, prefix);
    lemma_step_embed(b, y, k, bb, base, cur, prefix);
    match step(b, bb, cur, prefix) {
        Step::Prefix(c, p) => lemma_run_tail(b, y, k, base, c, p, text),
        Step::Instruction(c, t) => lemma_run_tail(
            b,
            y,
            k,
            base,
            c,
            Prefix::empty(),
            push_line(text, t),
        ),
        _ => {
            assert(read_value(y, y.len() as int, 1) == Err::<nat, ReadError>(ReadError::Eof));
            text
        },
    }
}

/// A run that starts from the text `join_text(first, text)` in place of
/// `text` ends with `first` joined to what it would have ended with.
proof fn lemma_run_text(
    x: Seq<u8>,
    base: u64,
    cur: int,
    prefix: Prefix,
    first: Seq<char>,
    text: Seq<char>,
) -> (listing: Seq<char>)
    requires
        decodes_whole(x, base, cur, prefix),
    ensures
        run(x, base, cur, prefix, text) == Outcome::Finished(Ok(listing), x.len() as int),
        run(x, base, cur, prefix, join_text(first, text)) == Outcome::Finished(
            Ok(join_text(first, listing)),
            x.len() as int,
        ),
    decreases progress(x, cur),
{
    lemma_step_progress(x, base, cur, prefix);
    lemma_step_text(x, base, cur, prefix);
    match step(x, base, cur, prefix) {
        Step::Prefix(c, p) => lemma_run_text(x, base, c, p, first, text),
        Step::Instruction(c, t) => {
            let more = push_line(text, t);
            if first.len() > 0 && text.len() > 0 {
                assert(first + "\n"@ + text + "\n"@ + t =~= first + "\n"@ + (text + "\n"@ + t));
            }
            assert(join_text(first, more) == push_line(join_text(first, text), t));
            lemma_run_text(x, base, c, Prefix::empty(), first, more)
        },
        _ => text,
    }
}

/// Listings concatenate: where `a` and `b` each decode into whole
/// instructions, `b` read as code loaded right after `a` (at
/// `base + |a| / 2`), the listing of `a + b` is the listing of `a`, a line
/// break, then the listing of `b`; each run ends at the end of its input.
pub proof fn law_listings_concatenate(a: Seq<u8>, b: Seq<u8>, base: u64)
    requires
        valid_utf8(a),
        valid_utf8(b),
        base + a.len() / 2 <= u64::MAX,
        a.len() + b.len() + 2 <= usize::MAX,
        decodes_whole(a, base, 0, Prefix::empty()),
        decodes_whole(b, (base + a.len() / 2) as u64, 0, Prefix::empty()),
    ensures
        match (disassembly(a, base, 0), disassembly(b, (base + a.len() / 2) as u64, 0)) {
            (Outcome::Finished(Ok(la), ea), Outcome::Finished(Ok(lb), eb)) => ea == a.len() && eb
                == b.len() && disassembly(a + b, base, 0) == Outcome::Finished(
                Ok(join_text(la, lb)),
                (a.len() + b.len()) as int,
            ),
            _ => false,
        },
{
    let y = a + b;
    let k = a.len() as int;
    lemma_concat_boundaries(a, b);
    lemma_reads_embed(a, y, 0);
    lemma_reads_embed(b, y, k);
    lemma_whole_even(a, base, 0, Prefix::empty());
    let la = lemma_run_head(a, y, base, 0, Prefix::empty(), Seq::empty());
    let whole = lemma_run_tail(b, y, k, base, 0, Prefix::empty(), la);
    let bb = (base + k / 2) as u64;
    assert(join_text(la, Seq::empty()) == la);
    let lb = lemma_run_text(b, bb, 0, Prefix::empty(), la, Seq::empty());
    assert(whole == join_text(la, lb));
}

} // verus!
