use stackofstacks::expander::{code_len, parse};
use stackofstacks::lexer::tokenise;
use stackofstacks::packer::{bytecode, compile};
use stackofstacks::vm::{execute, Status};

fn resolve(source: &str) -> Vec<u8> {
    let tokens = tokenise(&source.as_bytes().to_vec()).unwrap();
    assert!(code_len(&tokens).is_some());
    parse(&tokens).unwrap()
}

#[test]
fn push_and_write_gives_ff() {
    let code = resolve("!.");
    let out = execute(&code, &vec![], false, 2);
    assert_eq!(out.output, vec![0xFF]);
    assert_eq!(out.status, Status::Running);
}

#[test]
fn shift_left_once_gives_fe() {
    let code = resolve("!0.");
    let out = execute(&code, &vec![], false, 3);
    assert_eq!(out.output, vec![0xFE]);
}

#[test]
fn macro_sixty_five_writes_capital_a() {
    let code = resolve("[65].");
    assert_eq!(code.len(), 66);
    let out = execute(&code, &vec![], false, 66);
    assert_eq!(out.output, b"A".to_vec());
}

#[test]
fn macro_program_in_strict_mode_leaves_code_after_writing() {
    let code = resolve("[65].");
    let out = execute(&code, &vec![], true, 1000);
    assert_eq!(out.output, b"A".to_vec());
    assert_eq!(out.status, Status::OutOfCode(66));
}

#[test]
fn lenient_program_wraps_and_repeats() {
    let code = resolve("!.");
    let out = execute(&code, &vec![], false, 6);
    assert_eq!(out.output, vec![0xFF, 0xFF, 0xFF]);
    assert_eq!(out.status, Status::Running);
}

#[test]
fn label_then_jump_by_minus_one_halts() {
    // The label is at offset 0; the text after `-` is not an instruction,
    // so the code is `!@-`: `!` pushes -1 and `@` pops it, which halts.
    let code = resolve(":a!@-a");
    assert_eq!(code, b"!@-".to_vec());
    let strict = execute(&code, &vec![], true, 100);
    assert_eq!(strict.status, Status::Halted);
    assert!(strict.output.is_empty());
    let lenient = execute(&code, &vec![], false, 100);
    assert_eq!(lenient.status, Status::Halted);
}

#[test]
fn echo_program_reads_one_byte_then_halts() {
    // `2` is not an instruction, so the code is `?.@-`: after echoing the
    // first byte, `@` pops from an empty stack.
    let code = resolve("?.@-2");
    assert_eq!(code, b"?.@-".to_vec());
    let lenient = execute(&code, &b"hi\n".to_vec(), false, 100);
    assert_eq!(lenient.output, b"h".to_vec());
    assert_eq!(lenient.status, Status::Halted);
    let strict = execute(&code, &b"hi\n".to_vec(), true, 100);
    assert_eq!(strict.output, b"h".to_vec());
    assert_eq!(strict.status, Status::Underflow);
}

#[test]
fn read_at_end_of_input_pushes_minus_one() {
    let code = resolve("?.");
    let out = execute(&code, &vec![], true, 2);
    assert_eq!(out.output, vec![0xFF]);
}

#[test]
fn pack_round_trip_of_every_symbol() {
    let code = resolve("!^|&+-*/$~=@?.01");
    assert_eq!(code.len(), 16);
    let packed = compile(&code);
    assert_eq!(packed, vec![0x01, 0x23, 0x45, 0x67, 0x89, 0xAB, 0xCD, 0xEF]);
    assert_eq!(bytecode(&packed), code);
}

#[test]
fn pack_odd_length_pads_with_push() {
    let packed = compile(&b"^.0".to_vec());
    assert_eq!(packed, vec![0x1D, 0xE0]);
    assert_eq!(bytecode(&packed), b"^.0!".to_vec());
}

#[test]
fn unpack_then_pack_is_identity() {
    let bytes: Vec<u8> = (0..=255u8).collect();
    let code = bytecode(&bytes);
    assert_eq!(code.len(), 512);
    assert_eq!(compile(&code), bytes);
}

#[test]
fn pack_of_empty_code_is_empty() {
    assert!(compile(&vec![]).is_empty());
    assert!(bytecode(&vec![]).is_empty());
}
