use disassembler::decode::Fault;
use disassembler::Reader;

fn listing(input: &str) -> Result<String, String> {
    Reader::new(input).disassemble()
}

#[test]
fn empty_input_gives_empty_listing() {
    assert_eq!(listing(""), Ok(String::new()));
}

#[test]
fn trailing_half_byte_is_ignored() {
    assert_eq!(listing("505"), Ok(String::from("push rax")));
}

#[test]
fn upper_and_lower_case_digits() {
    assert_eq!(listing("C3"), Ok(String::from("ret")));
    assert_eq!(listing("c9C3"), Ok(String::from("leave\nret")));
}

#[test]
fn lines_are_joined_with_newlines() {
    assert_eq!(listing("5051c3"), Ok(String::from("push rax\npush rcx\nret")));
}

#[test]
fn invalid_digits_give_an_error_message() {
    assert_eq!(
        listing("zz"),
        Err(String::from("Failed to parse byte, err: invalid digit found in string: input: zz"))
    );
    assert_eq!(
        listing("50x1"),
        Err(String::from("Failed to parse byte, err: invalid digit found in string: input: x1"))
    );
}

#[test]
fn non_ascii_input_in_the_error_message() {
    assert_eq!(
        listing("\u{e9}"),
        Err(String::from("Failed to parse byte, err: invalid digit found in string: input: \u{e9}"))
    );
}

#[test]
fn leading_plus_is_read_as_a_sign() {
    // "+f" reads as 0x0f, the two-byte opcode escape.
    assert_eq!(listing("+f8400000000"), Ok(String::from("je 0x6")));
}

#[test]
fn repeat_prefix_without_endbr64_steps_back() {
    // After f3 at the end, the position goes back one character: "4f" is a
    // REX prefix and the input ends.
    assert_eq!(listing("54f3"), Ok(String::from("push rsp")));
}

#[test]
fn endbr64_after_another_prefix() {
    assert_eq!(listing("66f30f1efa"), Ok(String::from("endbr64")));
}

#[test]
fn rex_high_byte_registers() {
    assert_eq!(listing("88e0"), Ok(String::from("mov al, ah")));
    assert_eq!(listing("4088e0"), Ok(String::from("mov al, spl")));
    assert_eq!(listing("88fb"), Ok(String::from("mov bl, bh")));
    assert_eq!(listing("4088fb"), Ok(String::from("mov bl, dil")));
}

#[test]
fn push_0x58_names_r8() {
    assert_eq!(listing("58"), Ok(String::from("push r8")));
    assert_eq!(listing("4158"), Ok(String::from("push r8")));
}

#[test]
fn alu_operations() {
    assert_eq!(listing("4883f800"), Ok(String::from("cmp rax, 0x0")));
    assert_eq!(listing("83c1fe"), Ok(String::from("add ecx, 0xfe")));
    assert_eq!(listing("6683e101"), Ok(String::from("and cx, 0x1")));
}

#[test]
fn immediate_is_written_as_twos_complement() {
    assert_eq!(listing("b0ff"), Ok(String::from("mov al, 0xffffffffffffffff")));
    assert_eq!(listing("48b8ffffffffffffffff"), Ok(String::from("mov rax, 0xffffffffffffffff")));
    assert_eq!(listing("b800000000"), Ok(String::from("mov eax, 0x0")));
}

#[test]
fn memory_operands() {
    assert_eq!(listing("8b45fc"), Ok(String::from("mov eax, [rbp-0x4]")));
    assert_eq!(listing("678d00"), Ok(String::from("lea eax, [eax]")));
    assert_eq!(listing("2e8b00"), Ok(String::from("mov eax, cs:[rax]")));
    assert_eq!(listing("8b0424"), Ok(String::from("mov eax, [rsp]")));
    assert_eq!(listing("8b0500000000"), Ok(String::from("mov eax, [rip+0x0]")));
    // A negative displacement alone loses its sign.
    assert_eq!(listing("8b0425f0ffffff"), Ok(String::from("mov eax, [0x10]")));
    assert_eq!(listing("8b04c8"), Ok(String::from("mov eax, [rax+rcx*8]")));
}

#[test]
fn register_forms() {
    assert_eq!(listing("31c0"), Ok(String::from("xor eax, eax")));
    assert_eq!(listing("29d8"), Ok(String::from("sub eax, ebx")));
    assert_eq!(listing("2ad8"), Ok(String::from("sub bl, al")));
}

#[test]
fn relative_targets() {
    assert_eq!(Reader::new_with_base("e800000000", 0x1000).disassemble(), Ok(String::from("call 0x1005")));
    // A call target wraps around 64 bits.
    assert_eq!(listing("e8fbffffff"), Ok(String::from("call 0x0")));
    assert_eq!(listing("7400"), Ok(String::from("je 0x2")));
    assert_eq!(listing("0f8f10000000"), Ok(String::from("jg 0x16")));
    assert_eq!(Reader::new_with_base("7f10", 0x100).disassemble(), Ok(String::from("jg 0x112")));
}

#[test]
fn a_second_run_after_a_listing_is_empty() {
    let mut reader = Reader::new("50c3");
    assert_eq!(reader.disassemble(), Ok(String::from("push rax\nret")));
    assert_eq!(reader.disassemble(), Ok(String::new()));
    assert_eq!(reader.disassemble(), Ok(String::new()));
}

#[test]
fn an_error_repeats() {
    let mut reader = Reader::new("50zz");
    let first = reader.disassemble();
    assert_eq!(
        first,
        Err(String::from("Failed to parse byte, err: invalid digit found in string: input: zz"))
    );
    assert_eq!(reader.disassemble(), first);
}

#[test]
fn faults_where_decoding_cannot_go_on() {
    let fault = |input: &str| Reader::new(input).try_disassemble().unwrap_err();
    assert_eq!(fault("05"), Fault::Unimplemented { escape: false, opcode: 0x05 });
    assert_eq!(fault("0f05"), Fault::Unimplemented { escape: true, opcode: 0x05 });
    assert_eq!(fault("88"), Fault::MissingOperand);
    assert_eq!(fault("0f"), Fault::MissingOperand);
    assert_eq!(fault("8czz"), Fault::MissingOperand);
    assert_eq!(fault("8c00"), Fault::Unreachable);
    // A backward jump overflows the unsigned target arithmetic.
    assert_eq!(fault("74fe"), Fault::Overflow);
    assert_eq!(fault("8b0500000080"), Fault::Overflow);
    // f3 alone: the position steps back before the start of the input.
    assert_eq!(fault("f3"), Fault::Overflow);
    assert_eq!(fault("8b042500000000"), Fault::EmptyDisplacement);
    assert_eq!(fault("a\u{e9}"), Fault::NotCharBoundary);
}

#[test]
fn try_disassemble_agrees_with_disassemble() {
    for input in ["", "50", "5051c3", "zz", "50zz", "e800000000", "488d05590e0000"] {
        let expected = Reader::new(input).disassemble();
        assert_eq!(Reader::new(input).try_disassemble(), Ok(expected));
    }
}

#[test]
fn new_reads_with_base_zero() {
    for input in ["e810000000", "7405", "c3"] {
        assert_eq!(Reader::new(input).disassemble(), Reader::new_with_base(input, 0).disassemble());
    }
}

#[test]
fn letter_case_does_not_change_the_listing() {
    assert_eq!(listing("4883EC20"), listing("4883ec20"));
    assert_eq!(listing("4883EC20"), Ok(String::from("sub rsp, 0x20")));
    assert_eq!(listing("F30F1EFA"), Ok(String::from("endbr64")));
    let upper = Reader::new("05").try_disassemble();
    assert_eq!(upper, Reader::new("05").try_disassemble());
    assert_eq!(Reader::new("0F0B").try_disassemble(), Reader::new("0f0b").try_disassemble());
}

#[test]
fn reads_are_little_endian() {
    assert_eq!(listing("66b83412"), Ok(String::from("mov ax, 0x1234")));
    assert_eq!(listing("b878563412"), Ok(String::from("mov eax, 0x12345678")));
}

#[test]
fn listings_of_joined_inputs_are_joined() {
    let first = listing("4889e5").unwrap();
    let second = listing("c3").unwrap();
    assert_eq!(listing("4889e5c3"), Ok(format!("{}\n{}", first, second)));
    // The second part is read as code loaded after the first.
    let call = Reader::new_with_base("e800000000", 1).disassemble().unwrap();
    assert_eq!(call, "call 0x6");
    assert_eq!(listing("50e800000000"), Ok(format!("push rax\n{}", call)));
}

#[test]
fn the_base_moves_only_branch_targets() {
    assert_eq!(listing("7f10c3"), Ok(String::from("jg 0x12\nret")));
    assert_eq!(
        Reader::new_with_base("7f10c3", 0x100).disassemble(),
        Ok(String::from("jg 0x112\nret"))
    );
    // A call target moves modulo 2^64.
    assert_eq!(listing("50e8f0ffffff"), Ok(String::from("push rax\ncall 0xfffffffffffffff6")));
    assert_eq!(
        Reader::new_with_base("50e8f0ffffff", 0x10).disassemble(),
        Ok(String::from("push rax\ncall 0x6"))
    );
}
