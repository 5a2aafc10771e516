use isbfc::codegen::c_codegen::{codegen, CellType};
use isbfc::codegen::native;
use isbfc::codegen::native::{lir_to_instrs, Instr, Reg};
use isbfc::compiler::Target;
use isbfc::isbfcir::IsbfcIR;
use isbfc::lir::{LVal, RVal, LIR};
use isbfc::optimizer::peephole::token::Token;
use isbfc::optimizer::{Optimizer, OptimizerKind};
use isbfc::parser::parse;

fn s(text: &str) -> String {
    text.to_string()
}

#[test]
fn c_program_of_a_small_list() {
    let lir = vec![
        LIR::DeclareBssBuf(s("strbuf"), 1),
        LIR::Add(LVal::Tape(0), RVal::Tape(0), RVal::Immediate(1)),
        LIR::Mov(LVal::Buf(s("strbuf"), 0), RVal::Tape(0)),
        LIR::Output(s("strbuf"), 0, 1),
    ];
    assert_eq!(
        codegen(&lir, CellType::U8, 8192),
        "#include <stdint.h>\n#include <stdio.h>\nuint8_t tape[8192];\nsize_t cursor = 4096;\n\
         char strbuf[1];\n\nint main() {\ntape[cursor + 0] = tape[cursor + 0] + 1;\n\
         strbuf[0] = tape[cursor + 0];\nfwrite(strbuf+0, 1, 1, stdout);\n\n}\n"
    );
}

#[test]
fn c_statement_of_each_instruction() {
    let lir = vec![
        LIR::Shift(-3),
        LIR::Mul(LVal::Reg(2), RVal::Tape(-1), RVal::Immediate(-5)),
        LIR::Sub(LVal::Tape(4), RVal::Reg(2), RVal::Buf(s("b"), 7)),
        LIR::Label(s("loop1")),
        LIR::Jp(s("endloop1")),
        LIR::Jz(RVal::Tape(0), s("endif2")),
        LIR::Jnz(RVal::Reg(1), s("loop1")),
        LIR::Input(s("inputbuf"), 0, 1),
    ];
    assert_eq!(
        codegen(&lir, CellType::U32, 10),
        "#include <stdint.h>\n#include <stdio.h>\nuint32_t tape[10];\nsize_t cursor = 5;\n\n\
         int main() {\ncursor += -3;\nconst uint32_t r2 = tape[cursor + -1] * -5;\n\
         tape[cursor + 4] = r2 - b[7];\nloop1: ;\ngoto endloop1;\n\
         if (tape[cursor + 0] == 0) { goto endif2; }\nif (r1 != 0) { goto loop1; }\n\
         fread(inputbuf+0, 1, 1, stdin);\n\n}\n"
    );
}

#[test]
fn c_cell_types() {
    assert_eq!(CellType::U8.c_name(), "uint8_t");
    assert_eq!(CellType::U16.c_name(), "uint16_t");
    assert_eq!(CellType::U32.c_name(), "uint32_t");
    assert_eq!(CellType::U64.c_name(), "uint64_t");
}

#[test]
fn c_buffers_keep_the_order_of_their_first_declaration() {
    let lir = vec![
        LIR::DeclareBssBuf(s("b"), 1),
        LIR::DeclareBssBuf(s("a"), 2),
        LIR::DeclareBssBuf(s("b"), 3),
    ];
    let program = codegen(&lir, CellType::U64, 7);
    assert!(program.contains("uint64_t tape[7];\nsize_t cursor = 3;\nchar b[3];\nchar a[2];\n\nint main()"));
}

#[test]
fn c_program_of_an_optimized_program() {
    let ast = parse(b"+++[-].").unwrap();
    let lir = OptimizerKind::Old.optimize(&ast, 1);
    assert_eq!(
        lir,
        vec![
            LIR::Mov(LVal::Buf(s("strbuf"), 0), RVal::Immediate(0)),
            LIR::Output(s("strbuf"), 0, 1),
            LIR::DeclareBssBuf(s("strbuf"), 2),
            LIR::DeclareBssBuf(s("inputbuf"), 1),
        ]
    );
    assert_eq!(
        codegen(&lir, CellType::U64, 8192),
        "#include <stdint.h>\n#include <stdio.h>\nuint64_t tape[8192];\nsize_t cursor = 4096;\n\
         char strbuf[2];\nchar inputbuf[1];\n\nint main() {\nstrbuf[0] = 0;\n\
         fwrite(strbuf+0, 1, 1, stdout);\n\n}\n"
    );
}

#[test]
fn native_control_flow() {
    let lir = vec![
        LIR::Jp(s("endloop1")),
        LIR::Label(s("loop1")),
        LIR::Shift(1),
        LIR::Label(s("endloop1")),
        LIR::Jnz(RVal::Tape(0), s("loop1")),
        LIR::Jz(RVal::Tape(0), s("endif1")),
        LIR::Label(s("endif1")),
        LIR::DeclareBssBuf(s("strbuf"), 4),
    ];
    let mut bufs = Vec::new();
    assert_eq!(
        lir_to_instrs(&lir, &mut bufs),
        vec![
            Instr::Jmp(s("endloop1")),
            Instr::Label(s("loop1")),
            Instr::Label(s("endloop1")),
            Instr::Jnz(s("loop1")),
            Instr::Jz(s("endif1")),
            Instr::Label(s("endif1")),
        ]
    );
    assert_eq!(bufs, vec![(s("strbuf"), 4)]);
    assert_eq!(
        native::codegen(&lir),
        ".section .text\n.global _start\n_start:\njmp endloop1\nloop1:\nendloop1:\njnz loop1\n\
         jz endif1\nendif1:\n.section .bss\n.lcomm strbuf, 4\n"
    );
}

#[test]
fn native_instruction_texts() {
    assert_eq!(Instr::Int(128).text(), "int $128");
    assert_eq!(Instr::Syscall.text(), "syscall");
    assert_eq!(Instr::Movq.text(), "");
    assert_eq!(Instr::Label(s("x")).text(), "x:");
    assert_eq!(Reg::RAX.name(), "%rax");
    assert_eq!(Reg::R12.name(), "%r12");
    assert_eq!(Reg::R15.name(), "%r15");
}

#[test]
fn assembly_of_a_small_program() {
    let ir = IsbfcIR {
        tokens: vec![Token::Add(0, 1), Token::LoadOut(0, 0), Token::Output],
    };
    assert_eq!(
        ir.compile(2),
        ".section .bss\n    .lcomm strbuff, 9\n    .lcomm mem, 16\n    .set startidx, mem + 8\n\
         .section .text\n.global _start\n_start:\n    xor %r12, %r12\n    movq $startidx, %rbx\n\n\
         \x20   inc %r12\n    movq %r12, (strbuff+0)\n    movq $1, %rax\n    movq $1, %rdi\n\
         \x20   movq $strbuff, %rsi\n    movq $1, %rdx\n    syscall\n\n\n\
         \x20   movq $60, %rax\n    movq $0, %rdi\n    syscall\n\n"
    );
}

fn body(ir: &IsbfcIR, target: &Target) -> String {
    let text = ir.compile_for(8192, target);
    let start = text.find("movq $startidx, %rbx\n\n").unwrap() + "movq $startidx, %rbx\n\n".len();
    let end = text.rfind("\n    movq $").unwrap();
    let end = text[..end].rfind("\n    movq $").unwrap();
    text[start..end].to_string()
}

#[test]
fn assembly_of_each_token() {
    let linux = Target::linux();
    let one = |token: Token| body(&IsbfcIR { tokens: vec![token] }, &linux);
    assert_eq!(one(Token::Add(0, 1)), "    inc %r12\n");
    assert_eq!(one(Token::Add(0, 5)), "    addq $5, %r12\n");
    assert_eq!(one(Token::Add(2, 1)), "    addq $1, 16(%rbx)\n");
    assert_eq!(one(Token::Add(0, -1)), "    dec %r12\n");
    assert_eq!(one(Token::Add(-1, -3)), "    subq $3, -8(%rbx)\n");
    assert_eq!(one(Token::Add(1, 0)), "");
    assert_eq!(one(Token::Assign(0, 0)), "    xor %r12, %r12\n");
    assert_eq!(one(Token::Assign(0, 7)), "    movq $7, %r12\n");
    assert_eq!(one(Token::Assign(3, 0)), "    movq $0, 24(%rbx)\n");
    assert_eq!(
        one(Token::Move(2)),
        "    movq %r12, (%rbx)\n    addq $16, %rbx\n    movq (%rbx), %r12\n"
    );
    assert_eq!(
        one(Token::Move(-1)),
        "    movq %r12, (%rbx)\n    subq $8, %rbx\n    movq (%rbx), %r12\n"
    );
    assert_eq!(one(Token::Move(0)), "");
    assert_eq!(
        one(Token::MulCopy(0, 1, 3)),
        "    movq %r12, %rax\n    movq $3, %rdx\n    mulq %rdx\n    addq %rax, 8(%rbx)\n"
    );
    assert_eq!(
        one(Token::MulCopy(0, 1, -2)),
        "    movq %r12, %rax\n    movq $2, %rdx\n    mulq %rdx\n    subq %rax, 8(%rbx)\n"
    );
    assert_eq!(one(Token::MulCopy(0, 1, 1)), "    addq %r12, 8(%rbx)\n");
    assert_eq!(
        one(Token::MulCopy(2, 1, -1)),
        "    movq 16(%rbx), %rax\n    subq %rax, 8(%rbx)\n"
    );
    assert_eq!(
        one(Token::Scan(-1)),
        "    movq %r12, (%rbx)\n    jmp endloop1\n    loop1:\n    subq $8, %rbx\n\
         \x20   endloop1:\n    cmp $0, (%rbx)\n    jnz loop1\n    movq (%rbx), %r12\n"
    );
    assert_eq!(
        one(Token::Input),
        "    \n    xor %rax, %rax\n    xor %rdi, %rdi\n    movq %rbx, %rsi\n    movq $1, %rdx\n\
         \x20   syscall\n    movq (%rbx), %r12\n\n"
    );
    assert_eq!(
        one(Token::LoadOut(2, -3)),
        "    movq 16(%rbx), %rax\n    movq %rax, (strbuff+0)\n    subb $3, (strbuff+0)\n"
    );
    assert_eq!(one(Token::LoadOutSet(65)), "    movq $65, (strbuff+0)\n");
}

#[test]
fn assembly_of_nested_blocks() {
    let ir = IsbfcIR {
        tokens: vec![
            Token::Loop(vec![Token::If(1, vec![Token::Assign(0, 0)])]),
            Token::If(0, vec![]),
        ],
    };
    assert_eq!(
        body(&ir, &Target::linux()),
        "    jmp endloop1\n    loop1:\n        cmpq $0, 8(%rbx)\n        jz endif1\n\
         \x20           xor %r12, %r12\n        endif1:\n\n    endloop1:\n    test %r12, %r12\n\
         \x20   jnz loop1\n    test %r12, %r12\n    jz endif2\n    endif2:\n\n"
    );
}

#[test]
fn assembly_for_redox() {
    let ir = IsbfcIR {
        tokens: vec![Token::Input, Token::LoadOutSet(1), Token::Output],
    };
    let text = ir.compile_for(4, &Target::redox(3, 4, 1));
    assert_eq!(
        text,
        ".section .bss\n    .lcomm strbuff, 9\n    .lcomm mem, 32\n    .set startidx, mem + 16\n\
         .section .text\n.global _start\n_start:\n    xor %r12, %r12\n    movq $startidx, %rbx\n\n\
         \x20   \n    movq $3, %rax\n    movq %rbx, %rcx\n    xor %rbx, %rbx\n    movq $1, %rdx\n\
         \x20   int $0x80\n    movq %rcx, %rbx\n    movq (%rbx), %r12\n\n\
         \x20   movq $1, (strbuff+0)\n    movq $4, %rax\n    movq %rbx, %r11\n    movq $1, %rbx\n\
         \x20   movq $strbuff, %rcx\n    movq $1, %rdx\n    int $0x80\n    movq %r11, %rbx\n\n\n\
         \x20   movq $1, %rax\n    movq $0, %rdi\n    int $0x80\n\n"
    );
}

#[test]
fn token_form_from_a_program() {
    let ir = IsbfcIR::from_ast(parse(b"+[-].").unwrap());
    assert_eq!(
        ir.tokens,
        vec![
            Token::Add(0, 1),
            Token::Loop(vec![Token::Add(0, -1)]),
            Token::LoadOut(0, 0),
            Token::Output,
        ]
    );
    assert_eq!(
        ir.optimize().tokens,
        vec![Token::LoadOutSet(0), Token::Output]
    );
}
