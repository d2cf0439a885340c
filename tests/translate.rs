use risc_powdr::asm_parser::{parse_asm, parse_line, Argument, Register, Statement};
use risc_powdr::compiler::{
    compile_riscv_asm, library_routines, preamble, process_instruction, process_statement,
};
use risc_powdr::error::ErrorKind;

fn instruction(line: &str) -> (String, Vec<Argument>) {
    let mut st = parse_line(line).unwrap();
    assert_eq!(st.len(), 1);
    match st.remove(0) {
        Statement::Instruction(name, args) => (name, args),
        _ => panic!("not an instruction: {line}"),
    }
}

fn lower(line: &str) -> Result<String, ErrorKind> {
    let (name, args) = instruction(line);
    process_instruction(&name, &args).map_err(|e| e.kind)
}

#[test]
fn add_is_wrapped_addition() {
    assert_eq!(lower("add x5, x6, x7").unwrap(), "x5 <=X= wrap x6 + x7\n");
    assert_eq!(lower("add a0, a0, a1").unwrap(), "x10 <=X= wrap x10 + x11\n");
}

#[test]
fn store_is_address_then_store() {
    assert_eq!(lower("sw a1, 8(a0)").unwrap(), "addr <=X= wrap x10 + 8\nmstore x11\n");
    assert_eq!(lower("lw a1, 0(sp)").unwrap(), "addr <=X= wrap x2 + 0\nx11 <=X= mload\n");
}

#[test]
fn zero_branches_differ_only_in_condition() {
    assert_eq!(lower("beqz a4, .LBB0_3").unwrap(), "branch_if_zero x14, .LBB0_3\n");
    assert_eq!(lower("bnez a4, .LBB0_3").unwrap(), "branch_if_nonzero x14, .LBB0_3\n");
}

#[test]
fn register_branches() {
    assert_eq!(lower("beq a0, a1, L").unwrap(), "branch_if_zero x10 - x11, L\n");
    assert_eq!(lower("bne a0, a1, L").unwrap(), "branch_if_nonzero x10 - x11, L\n");
    assert_eq!(lower("bgeu a0, a1, L").unwrap(), "branch_if_positive x10 - x11, L\n");
    assert_eq!(lower("bltu a0, a1, L").unwrap(), "branch_if_positive x11 - x10, L\n");
}

#[test]
fn unknown_mnemonic_is_named() {
    let (name, args) = instruction("frobnicate r1, r2");
    let e = process_instruction(&name, &args).unwrap_err();
    assert_eq!(e.kind, ErrorKind::UnsupportedMnemonic);
    assert_eq!(e.subject, "frobnicate");
}

#[test]
fn wide_shift_is_unsupported() {
    assert_eq!(lower("slli a0, a1, 17"), Err(ErrorKind::UnsupportedEncoding));
    assert_eq!(lower("slli a0, a1, 16").unwrap(), "x10 <=Y= wrap16 x11 * 65536\n");
    assert_eq!(lower("slli a0, a1, 2").unwrap(), "x10 <=Y= wrap16 x11 * 4\n");
}

#[test]
fn shape_mismatch() {
    assert_eq!(lower("add a0, a1"), Err(ErrorKind::ShapeMismatch));
    assert_eq!(lower("li a0, a1"), Err(ErrorKind::ShapeMismatch));
    assert_eq!(lower("ret a0"), Err(ErrorKind::ShapeMismatch));
    assert_eq!(lower("j 5"), Err(ErrorKind::ShapeMismatch));
}

#[test]
fn symbol_difference_is_unsupported() {
    assert_eq!(lower("li a0, .Lend - main"), Err(ErrorKind::UnsupportedEncoding));
}

#[test]
fn immediates() {
    assert_eq!(lower("li a0, 5").unwrap(), "x10 <=X= 5\n");
    assert_eq!(lower("li a0, 0x1F").unwrap(), "x10 <=X= 31\n");
    assert_eq!(lower("addi sp, sp, -16").unwrap(), "x2 <=X= wrap x2 + 4294967280\n");
    assert_eq!(lower("lui a0, 1").unwrap(), "x10 <=X= 4096\n");
    assert_eq!(lower("lui a0, 0xfffff").unwrap(), "x10 <=X= 4294963200\n");
    assert_eq!(lower("lui a0, %hi(data)").unwrap(), "x10 <=X= 0\n");
    assert_eq!(lower("addi a0, a0, %lo(data)").unwrap(), "x10 <=X= wrap x10 + 0\n");
}

#[test]
fn other_instructions() {
    assert_eq!(lower("j loop").unwrap(), "jump loop\n");
    assert_eq!(lower("call memset@plt").unwrap(), "call memset@plt\n");
    assert_eq!(lower("ecall").unwrap(), "x10 <= ${ }\n");
    assert_eq!(lower("mv a0, s1").unwrap(), "x10 <=X= x9\n");
    assert_eq!(lower("ret").unwrap(), "ret\n");
    assert_eq!(lower("seqz a0, a1").unwrap(), "x10 <=Y= is_equal_zero x11\n");
    assert_eq!(lower("unimp").unwrap(), "fail\n");
    assert_eq!(lower("xor a0, a1, a2").unwrap(), "x10 <=X= xor x11, x12\n");
}

#[test]
fn statements_are_indented() {
    let st = parse_line("lw a0, 4(sp)").unwrap();
    assert_eq!(process_statement(&st[0]).unwrap(), "  addr <=X= wrap x2 + 4\n  x10 <=X= mload\n");
    let st = parse_line("main:").unwrap();
    assert_eq!(process_statement(&st[0]).unwrap(), "main::\n");
    let st = parse_line(".globl main").unwrap();
    assert_eq!(process_statement(&st[0]).unwrap(), "");
}

#[test]
fn arguments_round_trip() {
    let (_, args) = instruction("op x7, -42, 12(x3), \"a, b\", sym, %hi(d), %lo(d), a - b");
    let rendered: Vec<String> = args.iter().map(|a| a.to_string()).collect();
    assert_eq!(
        rendered,
        vec!["x7", "-42", "12(x3)", "\"a, b\"", "sym", "%hi(d)", "%lo(d)", "a - b"]
    );
    for (arg, text) in args.iter().zip(rendered.iter()) {
        let (_, again) = instruction(&format!("op {text}"));
        assert_eq!(again.len(), 1);
        assert_eq!(again[0].to_string(), arg.to_string());
    }
    assert!(matches!(args[0], Argument::Register(r) if r.index() == 7));
    assert!(matches!(args[1], Argument::Number(-42)));
}

#[test]
fn extreme_numbers() {
    let (_, args) = instruction("op -9223372036854775808, 9223372036854775807");
    assert!(matches!(args[0], Argument::Number(i64::MIN)));
    assert!(matches!(args[1], Argument::Number(i64::MAX)));
    assert!(parse_line("op 9223372036854775808").is_err());
}

#[test]
fn register_names() {
    let (_, args) = instruction("op zero, ra, sp, fp, s0, t6, x31, x0");
    let idx: Vec<u8> = args
        .iter()
        .map(|a| match a {
            Argument::Register(r) => r.index(),
            _ => panic!(),
        })
        .collect();
    assert_eq!(idx, vec![0, 1, 2, 8, 8, 31, 31, 0]);
    assert!(Register::new(31).is_some());
    assert!(Register::new(32).is_none());
    assert_eq!(Register::new(5).unwrap().to_string(), "x5");
}

#[test]
fn render_after_parse() {
    let text = "main:\n  .section .text.main,\"ax\",@progbits\n  add a0, a0, a1\n";
    let st = parse_asm(text).unwrap();
    let rendered: String = st.iter().map(|s| s.to_string()).collect();
    assert_eq!(
        rendered,
        "main:\n  .section .text.main, \"ax\", @progbits\n  add x10, x10, x11\n"
    );
}

#[test]
fn comments_and_blank_lines_are_skipped() {
    let st = parse_asm("\n   \n# a comment\n\tret\n").unwrap();
    assert_eq!(st.len(), 1);
}

#[test]
fn syntax_error_names_line() {
    let e = parse_asm("ret\n  li a0, 5)  \n").unwrap_err();
    assert_eq!(e.kind, ErrorKind::Syntax);
    assert_eq!(e.subject, "li a0, 5)");
}

#[test]
fn end_to_end() {
    let out = compile_riscv_asm("li a0, 5\nli a1, 7\nadd a0, a0, a1\nret\n").unwrap();
    let pre = preamble();
    assert!(out.starts_with(&pre));
    let body = &out[pre.len()..];
    assert!(body.starts_with("  x10 <=X= 5\n  x11 <=X= 7\n  x10 <=X= wrap x10 + x11\n  ret\n"));
    assert!(body.contains("memset@plt::\n  branch_if_zero x14, ___end_memset\n"));
    assert!(body.ends_with("  fail\n"));
}

#[test]
fn preamble_declares_registers() {
    let pre = preamble();
    assert!(pre.starts_with("\nreg pc[@pc];\n"));
    assert!(pre.contains("reg Z[<=];\nreg x0;\nreg x1;\n"));
    assert!(pre.contains("reg x31;\n\nreg ADDR;"));
    assert!(library_routines().contains("memset@plt:"));
}

#[test]
fn compile_reports_failures() {
    let e = compile_riscv_asm("frobnicate a0\n").unwrap_err();
    assert_eq!(e.kind, ErrorKind::UnsupportedMnemonic);
    let e = compile_riscv_asm("li a0, (\n").unwrap_err();
    assert_eq!(e.kind, ErrorKind::Syntax);
}

#[test]
fn rendered_statements_parse_back() {
    let text = "loop:\n.p2align 2\nsw a1, -4(sp)\nlui a0, %hi(data)\n.size main, .Lend-main\nret\n";
    let first = parse_asm(text).unwrap();
    let rendered: String = first.iter().map(|s| s.to_string()).collect();
    let second = parse_asm(&rendered).unwrap();
    let again: String = second.iter().map(|s| s.to_string()).collect();
    assert_eq!(rendered, again);
    assert_eq!(
        rendered,
        "loop:\n  .p2align 2\n  sw x11, -4(x2)\n  lui x10, %hi(data)\n  .size main, .Lend - main\n  ret \n"
    );
}
