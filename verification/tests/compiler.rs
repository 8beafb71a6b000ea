use std::io::Cursor;

use zircon::compiler::compiler_context::{CompilerContext, ResolutionOp, WriteOp};
use zircon::compiler::engine::{emit_queue, resolve_queue, sweep_queue};
use zircon::compiler::types::{DataTarget, LongRegister, Register, ShortRegister};
use zircon::compiler::moved::origin_line_is_plain;
use zircon::compiler::{tokens_belong, Compiler};
use zircon::tokenizer::{tokenize, Token, TokenType};
use zircon::{compile, CompileError, MultiResult, Span};

fn lex(text: &str) -> Vec<Token> {
    tokenize(&mut Cursor::new(text.as_bytes())).unwrap().tokens
}

fn assemble(text: &str) -> MultiResult<Vec<u8>> {
    let tokens = lex(text);
    assert!(tokens_belong(text, &tokens));
    compile(text, &tokens)
}

fn binary(text: &str) -> Vec<u8> {
    match assemble(text) {
        MultiResult::Done(binary) => binary,
        MultiResult::Failed(errors) => panic!("unexpected errors: {:?}", errors),
    }
}

fn errors(text: &str) -> Vec<CompileError> {
    match assemble(text) {
        MultiResult::Done(binary) => panic!("unexpected binary: {:?}", binary),
        MultiResult::Failed(errors) => errors,
    }
}

fn messages(text: &str) -> Vec<String> {
    errors(text).into_iter().map(|e| e.message).collect()
}

fn span(pos: std::ops::Range<usize>, line: usize, col: std::ops::Range<usize>) -> Span {
    Span { pos, line: line..line + 1, col }
}

#[test]
fn compile_load_immediate() {
    assert_eq!(binary("sub boot {\n    ld A, $FF\n}\n"), vec![0x3E, 0xFF]);
}

#[test]
fn compile_load_immediate_for_each_register() {
    assert_eq!(
        binary("sub boot {\nld A, 1\nld B, 2\nld C, 3\nld D, 4\nld E, 5\nld H, 6\nld L, 255\n}\n"),
        vec![0x3E, 1, 0x06, 2, 0x0E, 3, 0x16, 4, 0x1E, 5, 0x26, 6, 0x2E, 255]
    );
}

#[test]
fn compile_absolute_store() {
    assert_eq!(binary("sub boot {\n    ld $6000*, A\n}\n"), vec![0x32, 0x00, 0x60]);
    assert_eq!(binary("sub boot {\n    ld 258*, A\n}\n"), vec![0x32, 0x02, 0x01]);
}

#[test]
fn compile_symbolic_store() {
    assert_eq!(
        binary("def X = $10\nsub boot { ld X*, A }"),
        vec![0x32, 0x10, 0x00]
    );
}

#[test]
fn compile_whole_program() {
    let text = "\ndef TargetAddress = $10\n\nsub boot {\n    ld A, $FF\n    ld TargetAddress*, A\n    ld $6000*, A\n\n    jp boot\n}\n    ";
    assert_eq!(
        binary(text),
        vec![0x3E, 0xFF, 0x32, 0x10, 0x00, 0x32, 0x00, 0x60, 0xC3, 0x00, 0x00]
    );
}

#[test]
fn compile_forward_reference() {
    assert_eq!(
        binary("sub first {\n jp second\n}\nsub second {\n jp first\n}\n"),
        vec![0xC3, 0x03, 0x00, 0xC3, 0x00, 0x00]
    );
    assert_eq!(
        binary("sub boot {\n ld Later*, A\n}\ndef Later = $1234\n"),
        vec![0x32, 0x34, 0x12]
    );
}

#[test]
fn compile_rom_word() {
    assert_eq!(
        binary("def X = $1234\nrom table : 2 = X\nsub boot {\n jp table\n}\n"),
        vec![0x34, 0x12, 0xC3, 0x00, 0x00]
    );
    assert_eq!(
        binary("@origin(4)\nrom here : 2 = here\n"),
        vec![0, 0, 0, 0, 0x04, 0x00]
    );
}

#[test]
fn compile_origin_pads_with_zeros() {
    assert_eq!(
        binary("@origin($4)\nsub boot {\n ld A, 1\n jp boot\n}\n"),
        vec![0, 0, 0, 0, 0x3E, 0x01, 0xC3, 0x04, 0x00]
    );
    assert_eq!(
        binary("sub one {\n ld A, 1\n}\n@origin(6)\nsub two {\n ld B, 2\n}\n"),
        vec![0x3E, 1, 0, 0, 0, 0, 0x06, 2]
    );
}

#[test]
fn compile_origin_backwards_overwrites() {
    assert_eq!(
        binary("def X = 1\nrom w : 2 = X\n@origin(0)\nrom v : 2 = w\n"),
        vec![0x00, 0x00]
    );
}

#[test]
fn compile_origin_at_the_natural_start_changes_nothing() {
    let plain = "def X = $10\nsub boot {\n ld A, 7\n ld X*, A\n jp boot\n}\n";
    let with_origin = format!("@origin(0)\n{}", plain);
    assert_eq!(binary(&with_origin), binary(plain));
    assert_eq!(binary("@origin(0)\n"), Vec::<u8>::new());
    assert_eq!(binary(""), Vec::<u8>::new());
    // with forward references, and with a fault, all the same
    let forward = "sub first {\n jp second\n}\nsub second {\n jp first\n}\n";
    assert_eq!(binary(&format!("@origin(0)\n{}", forward)), binary(forward));
    let faulty = "sub boot {\n ld A, B\n jp nowhere\n}\n";
    assert_eq!(messages(&format!("@origin(0)\n{}", faulty)), messages(faulty));
}

#[test]
fn the_origin_line_is_made_of_plain_characters() {
    assert!(origin_line_is_plain());
    let kinds: Vec<TokenType> = lex("@origin(0)\n").into_iter().map(|t| t.ty).collect();
    assert_eq!(
        kinds,
        vec![
            TokenType::At,
            TokenType::Identifier,
            TokenType::OpeningParen,
            TokenType::DecNumber,
            TokenType::ClosingParen,
            TokenType::NewLine,
        ]
    );
}

#[test]
fn compile_comments_are_skipped() {
    assert_eq!(
        binary("// start\nsub boot { // the entry\n ld A, 1 // one\n // nothing\n}\n// end"),
        vec![0x3E, 1]
    );
}

#[test]
fn compile_two_registers_is_an_operand_error() {
    let found = errors("sub boot {\n ld A, B\n ld C, 1\n}\n");
    assert_eq!(found.len(), 1);
    assert_eq!(
        found[0].message,
        "'ld' isn't implemented for Register(Short(A)) <- Register(Short(B))"
    );
    assert_eq!(found[0].span, Span { pos: 12..19, line: 1..2, col: 1..8 });
}

#[test]
fn compile_unsupported_ld_spans_the_instruction_and_costs_one_line() {
    let text = "sub boot {\n ld A, B\n ld $6000*, B // no\n   ld A, X // c\n ld 5, A\n ld C, 1\n}\n";
    let found = errors(text);
    assert_eq!(
        found.iter().map(|e| e.message.clone()).collect::<Vec<_>>(),
        vec![
            "'ld' isn't implemented for Register(Short(A)) <- Register(Short(B))",
            "'ld' isn't implemented for Address(24576) <- Register(Short(B))",
            "'ld' isn't implemented for Register(Short(A)) <- IdentifierImmediate(\"X\")",
            "'ld' isn't implemented for Immediate(5) <- Register(Short(A))",
        ]
    );
    assert_eq!(found[0].span, span(12..19, 1, 1..8));
    assert_eq!(found[1].span, span(21..33, 2, 1..13));
    assert_eq!(found[2].span, span(43..50, 3, 3..10));
    assert_eq!(found[3].span, span(57..64, 4, 1..8));
    let chars: Vec<char> = text.chars().collect();
    let covered: Vec<String> =
        found.iter().map(|e| chars[e.span.pos.clone()].iter().collect()).collect();
    assert_eq!(covered, vec!["ld A, B", "ld $6000*, B", "ld A, X", "ld 5, A"]);
    // without the faulty lines the line behind them is all that is left
    assert_eq!(binary("sub boot {\n ld C, 1\n}\n"), vec![0x0E, 1]);
}

#[test]
fn compile_too_big_immediate_is_underlined_before_a_comment() {
    let found = errors("sub boot {\n ld B, $100 // big\n}\n");
    assert_eq!(found.len(), 1);
    assert_eq!(found[0].message, "Number '256' is too big to fit into the B register");
    assert_eq!(found[0].span, span(18..22, 1, 7..11));
}

#[test]
fn compile_unsupported_ld_leaves_the_queues_alone() {
    let text = "ld A, B\nld C, 1\n";
    let tokens = lex(text);
    let mut compiler = Compiler::new(text, &tokens);
    assert_eq!(compiler.read_instruction().unwrap(), "ld");
    compiler.read_ld();
    assert_eq!(compiler.errors.len(), 1);
    assert_eq!(compiler.errors[0].span, span(0..7, 0, 0..7));
    assert_eq!(compiler.address, 0);
    assert!(compiler.write_queue.is_empty());
    assert!(compiler.resolution_queue.is_empty());
    compiler.read_instruction_line();
    assert_eq!(compiler.errors.len(), 1);
    assert_eq!(compiler.address, 2);
    assert_eq!(compiler.write_queue.len(), 1);
    assert_eq!(compiler.remaining_tokens.len(), 1);
    assert_eq!(compiler.remaining_tokens[0].ty, TokenType::NewLine);
}

#[test]
fn compile_both_overlapping_blocks_are_named() {
    let text = "sub foo {\nld A, $FF\n}\n@origin(0)\nsub bar {\nld A, $FF\n}\n";
    let found = errors(text);
    assert!(!found.is_empty());
    assert!(found.iter().any(|e| e.message.contains("foo")));
    assert!(found.iter().any(|e| e.message.contains("bar")));
    assert_eq!(messages(text), vec!["Subroutine 'bar' overlaps with 'foo'"]);
}

#[test]
fn compile_goes_on_after_an_error() {
    assert_eq!(
        messages("sub boot {\n ld A, B\n ld 1, 2\n ld A 3\n}\n"),
        vec![
            "'ld' isn't implemented for Register(Short(A)) <- Register(Short(B))",
            "'ld' isn't implemented for Immediate(1) <- Immediate(2)",
            "Expected Comma, found DecNumber",
        ]
    );
}

#[test]
fn compile_operand_forms_in_diagnostics() {
    assert_eq!(
        messages("sub boot {\n ld x, y*\n ld 5*, $10*\n}\n"),
        vec![
            "'ld' isn't implemented for IdentifierImmediate(\"x\") <- IdentifierAddress(\"y\")",
            "'ld' isn't implemented for Address(5) <- Address(16)",
        ]
    );
    assert_eq!(
        messages("sub boot {\n ld F, 1\n}\n"),
        vec!["'ld' isn't implemented for Register(Short(F)) <- Immediate(1)"]
    );
}

#[test]
fn compile_immediate_too_big_for_a_register() {
    let found = errors("sub boot {\n ld B, $100\n}\n");
    assert_eq!(found.len(), 1);
    assert_eq!(found[0].message, "Number '256' is too big to fit into the B register");
    assert_eq!(found[0].span, span(18..22, 1, 7..11));
}

#[test]
fn compile_literal_errors() {
    assert_eq!(
        messages("def X = $10000\n"),
        vec!["Number '65536' is too big to fit into the A register"]
    );
    assert_eq!(binary("def X = $FFFF\nrom word : 2 = X\n"), vec![0xFF, 0xFF]);
    assert_eq!(binary("def X = 65535\nrom word : 2 = X\n"), vec![0xFF, 0xFF]);
    assert_eq!(
        messages("def X = $FFFFFFFFF\n"),
        vec!["number too large to fit in target type"]
    );
    assert_eq!(
        messages("def X = 99999999999\n"),
        vec!["number too large to fit in target type"]
    );
    assert_eq!(messages("def X = $\n"), vec!["cannot parse integer from empty string"]);
    assert_eq!(messages("def X = \u{661}2\n"), vec!["invalid digit found in string"]);
    assert_eq!(messages("def X = Y\n"), vec!["Expected a literal, found Identifier"]);
    assert_eq!(messages("def X ="), vec!["Expected identifier, found EOF"]);
}

#[test]
fn compile_syntax_errors() {
    assert_eq!(messages("ld A, 1\n"), vec!["Unexpected token Instruction"]);
    assert_eq!(messages("boot\n"), vec!["Unexpected token Identifier"]);
    assert_eq!(
        messages("sub {\n}\n"),
        vec!["Expected Identifier, found OpeningCurly", "Unexpected token ClosingCurly"]
    );
    assert_eq!(messages("sub a { }\n"), vec!["Expected Identifier, found Register"]);
    assert_eq!(messages("sub boot\nld A, 1\n"), vec![
        "Expected OpeningCurly, found Instruction",
    ]);
    assert_eq!(messages("sub boot {\n st A, 1\n}\n"), vec!["Unable to find mnemonic 'st'"]);
    assert_eq!(messages("sub boot {\n LD A, 1\n}\n"), vec!["Unable to find mnemonic 'LD'"]);
    assert_eq!(messages("sub boot {\n ld ,\n}\n"), vec!["Invalid data target"]);
    assert_eq!(messages("sub boot {\n ld a, 1\n}\n"), vec!["Invalid data target"]);
    assert_eq!(messages("SUB boot {}\n"), vec!["Unimplemented specifier type 'SUB'"]);
    assert_eq!(messages("DEF X = 1\n"), vec!["Unimplemented data declaration type 'DEF'"]);
    assert_eq!(messages("@fallthrough\n"), vec!["Unknown top level directive 'fallthrough'"]);
    assert_eq!(messages("@origin 4\n"), vec!["Expected OpeningParen, found DecNumber"]);
    assert_eq!(messages("@origin(4\n"), vec!["Expected ClosingParen, found NewLine"]);
    assert_eq!(messages("rom X : 1 = Y\n"), vec!["Invalid data size '1', expected 2"]);
    assert_eq!(messages("rom X 2 = Y\n"), vec!["Expected Colon, found DecNumber"]);
    assert_eq!(messages("def X 2\n"), vec!["Expected Equals, found DecNumber"]);
    assert_eq!(messages("sub boot {\n jp\n}"), vec!["Expected Identifier, found NewLine"]);
    assert_eq!(messages("sub"), vec!["Expected identifier, found EOF"]);
}

#[test]
fn compile_spans_of_syntax_errors() {
    let found = errors("\n  boot\n");
    assert_eq!(found.len(), 1);
    assert_eq!(found[0].span, span(3..7, 1, 2..6));
    let found = errors("sub boot {\n nop\n}\n");
    assert_eq!(found[0].message, "Expected Instruction, found Identifier");
    assert_eq!(found[0].span, span(12..15, 1, 1..4));
}

#[test]
fn compile_independent_errors_are_all_reported() {
    assert_eq!(
        messages("def = 1\nsub boot {\n ld A, B\n}\n@wrong\nrom X : 3 = Y\n"),
        vec![
            "Expected Identifier, found Equals",
            "'ld' isn't implemented for Register(Short(A)) <- Register(Short(B))",
            "Unknown top level directive 'wrong'",
            "Invalid data size '3', expected 2",
        ]
    );
}

#[test]
fn compile_overlapping_subroutines() {
    let text = "sub first {\n ld A, 1\n ld B, 2\n}\n@origin(2)\nsub second {\n ld C, 3\n}\n";
    let found = errors(text);
    assert_eq!(found.len(), 1);
    assert_eq!(found[0].message, "Subroutine 'second' overlaps with 'first'");
    assert_eq!(found[0].span, span(47..53, 5, 4..10));
}

#[test]
fn compile_overlap_where_the_new_range_holds_the_old() {
    let text = "@origin(2)\nsub inner {\n ld A, 1\n}\n@origin(0)\nsub outer {\n ld A, 1\n ld A, 1\n ld A, 1\n}\n";
    assert_eq!(messages(text), vec!["Subroutine 'outer' overlaps with 'inner'"]);
}

#[test]
fn compile_adjacent_and_empty_subroutines_do_not_overlap() {
    assert_eq!(
        binary("sub one {\n ld A, 1\n}\nsub two {\n ld B, 2\n}\nsub three {\n}\n"),
        vec![0x3E, 1, 0x06, 2]
    );
    assert_eq!(
        binary("sub one {\n ld A, 1\n}\n@origin(1)\nsub empty {\n}\n"),
        vec![0x3E, 1]
    );
}

#[test]
fn compile_unresolved_symbols() {
    let found = errors("rom First : 2 = Second\n");
    assert_eq!(found.len(), 1);
    assert_eq!(found[0].message, "Could not resolve a declaration");
    assert_eq!(found[0].span, span(16..22, 0, 16..22));
    let found = errors("sub boot {\n jp nowhere\n ld gone*, A\n}\n");
    assert_eq!(found.len(), 2);
    assert_eq!(found[0].message, "Could not resolve a declaration");
    assert_eq!(found[0].span, span(15..22, 1, 4..11));
    assert_eq!(found[0].span.slice("sub boot {\n jp nowhere\n ld gone*, A\n}\n"), "nowhere");
    assert_eq!(found[1].message, "Could not resolve a declaration");
    assert_eq!(found[1].span, span(24..35, 2, 1..12));
}

#[test]
fn compile_duplicate_declaration() {
    let found = errors("def X = 1\ndef X = 2\n");
    assert_eq!(found.len(), 1);
    assert_eq!(found[0].message, "Could not resolve a declaration");
    assert_eq!(found[0].span, span(14..15, 1, 4..5));
    assert_eq!(
        messages("sub boot {\n}\ndef boot = 2\n"),
        vec!["Could not resolve a declaration"]
    );
}

#[test]
fn compile_address_space_overflow() {
    assert_eq!(
        messages("@origin($FFFE)\nsub boot {\n ld A, 1\n}\n"),
        vec!["Program does not fit into the address space"]
    );
    let image = binary("@origin($FFFD)\nsub boot {\n ld A, 1\n}\n");
    assert_eq!(image.len(), 0xFFFF);
    assert_eq!(&image[0xFFFD..], &[0x3E, 1]);
    assert!(image[..0xFFFD].iter().all(|b| *b == 0));
}

#[test]
fn compiler_methods_step_by_step() {
    let text = "// note\nld A, $12*\n\n\njp x";
    let tokens = lex(text);
    let mut compiler = Compiler::new(text, &tokens);
    assert_eq!(compiler.peek().map(|t| t.ty), Some(TokenType::NewLine));
    compiler.skip_line_sep();
    assert_eq!(compiler.read_instruction().unwrap(), "ld");
    assert_eq!(
        compiler.read_data_target().unwrap(),
        DataTarget::Register(Register::Short(ShortRegister::A))
    );
    assert_eq!(compiler.read_token_with_type(TokenType::Comma).unwrap().ty, TokenType::Comma);
    assert_eq!(compiler.peek_literal().unwrap(), 0x12);
    assert_eq!(compiler.read_data_target().unwrap(), DataTarget::Address(0x12));
    assert_eq!(compiler.latest_span, span(17..18, 1, 9..10));
    compiler.next_reset();
    assert_eq!(compiler.next().map(|t| t.ty), Some(TokenType::Instruction));
    assert_eq!(compiler.peek_ident().unwrap(), "x");
    let e = compiler.peek_token_with_type(TokenType::Star).unwrap_err();
    assert_eq!(e.message, "Expected Star, found Identifier");
    assert_eq!(compiler.read_ident().unwrap(), "x");
    assert_eq!(compiler.next(), None);
    assert_eq!(compiler.read_ident().unwrap_err().message, "Expected identifier, found EOF");
    assert!(compiler.remaining_tokens.is_empty());
}

#[test]
fn compiler_reads_registers() {
    let text = "A B C D E F H L I R SP PC IX IY a";
    let tokens = lex(text);
    let mut compiler = Compiler::new(text, &tokens);
    let mut found = Vec::new();
    for _ in 0..14 {
        found.push(compiler.read_register().unwrap());
    }
    assert_eq!(found[0], Register::Short(ShortRegister::A));
    assert_eq!(found[5], Register::Short(ShortRegister::F));
    assert_eq!(found[9], Register::Short(ShortRegister::R));
    assert_eq!(found[10], Register::Long(LongRegister::SP));
    assert_eq!(found[13], Register::Long(LongRegister::IY));
    assert_eq!(compiler.peek_register().unwrap_err().message, "Unimplemented register");
    assert_eq!(compiler.read_data_target().unwrap_err().message, "Invalid data target");
}

#[test]
fn compiler_reserves_areas() {
    let tokens = Vec::new();
    let mut compiler = Compiler::new("", &tokens);
    assert_eq!(compiler.reserve_area("a", 0..4), None);
    assert_eq!(compiler.reserve_area("b", 4..8), None);
    assert_eq!(compiler.reserve_area("c", 3..5), Some("a".to_string()));
    assert_eq!(compiler.reserve_area("c", 7..9), Some("b".to_string()));
    assert_eq!(compiler.reserve_area("c", 5..6), Some("b".to_string()));
    assert_eq!(compiler.reserve_area("c", 0..100), Some("a".to_string()));
    assert_eq!(compiler.reserve_area("c", 2..2), None);
    assert_eq!(compiler.reserve_area("d", 8..8), None);
    assert_eq!(compiler.reserve_area("e", 8..9), None);
    assert_eq!(compiler.allocated_areas.len(), 5);
}

#[test]
fn compiler_write_moves_the_address() {
    let tokens = Vec::new();
    let mut compiler = Compiler::new("", &tokens);
    compiler.write(WriteOp::Data(vec![1, 2, 3]));
    assert_eq!(compiler.address, 3);
    compiler.write(WriteOp::Word { symbol: "x".to_string(), span: Span::default() });
    assert_eq!(compiler.address, 5);
    compiler.write(WriteOp::Absolute { opcode: 0xC3, symbol: "y".to_string(), span: Span::default() });
    assert_eq!(compiler.address, 8);
    compiler.set_address(0x100);
    assert_eq!(compiler.address, 0x100);
    compiler.resolution(ResolutionOp::Define { name: "x".to_string(), value: 7, span: Span::default() });
    assert_eq!(compiler.write_queue.len(), 4);
    assert_eq!(compiler.resolution_queue.len(), 3);
    assert_eq!(
        messages_of(compiler.compile()),
        vec!["Could not resolve a declaration".to_string()]
    );
}

fn messages_of(r: MultiResult<Vec<u8>>) -> Vec<String> {
    match r {
        MultiResult::Failed(errors) => errors.into_iter().map(|e| e.message).collect(),
        MultiResult::Done(_) => Vec::new(),
    }
}

#[test]
fn context_write_and_reserve() {
    let mut ctx = CompilerContext::new();
    ctx.write(&[1, 2]);
    assert_eq!(ctx.binary, vec![1, 2]);
    assert_eq!(ctx.address, 2);
    ctx.set_address(5);
    ctx.write(&[9]);
    assert_eq!(ctx.binary, vec![1, 2, 0, 0, 0, 9]);
    assert_eq!(ctx.address, 6);
    ctx.set_address(1);
    ctx.write(&[7, 8]);
    assert_eq!(ctx.binary, vec![1, 7, 8, 0, 0, 9]);
    ctx.reserve_min(3);
    assert_eq!(ctx.binary.len(), 6);
    ctx.reserve_min(8);
    assert_eq!(ctx.binary, vec![1, 7, 8, 0, 0, 9, 0, 0]);
    ctx.write(&[]);
    assert_eq!(ctx.address, 3);
}

#[test]
fn context_symbols() {
    let mut ctx = CompilerContext::new();
    assert_eq!(ctx.get("x"), None);
    ctx.set("x", 0x1234);
    ctx.set("y", 5);
    assert_eq!(ctx.get("x"), Some(0x1234));
    assert_eq!(ctx.get("y"), Some(5));
    assert_eq!(ctx.get("z"), None);
    assert!(!ResolutionOp::Define { name: "x".to_string(), value: 1, span: Span::default() }.run(&mut ctx));
    assert_eq!(ctx.get("x"), Some(0x1234));
    assert!(ResolutionOp::Define { name: "z".to_string(), value: 1, span: Span::default() }.run(&mut ctx));
    assert!(ResolutionOp::Require { name: "z".to_string(), span: Span::default() }.run(&mut ctx));
    assert!(!ResolutionOp::Require { name: "w".to_string(), span: Span::default() }.run(&mut ctx));
    WriteOp::Absolute { opcode: 0xC3, symbol: "x".to_string(), span: Span::default() }.run(&mut ctx);
    WriteOp::Word { symbol: "y".to_string(), span: Span::default() }.run(&mut ctx);
    assert_eq!(ctx.binary, vec![0xC3, 0x34, 0x12, 0x05, 0x00]);
}

#[test]
fn engine_sweeps_until_nothing_moves() {
    let queue = vec![
        ResolutionOp::Require { name: "b".to_string(), span: Span::default() },
        ResolutionOp::Require { name: "missing".to_string(), span: Span::default() },
        ResolutionOp::Define { name: "a".to_string(), value: 1, span: Span::default() },
        ResolutionOp::Define { name: "a".to_string(), value: 2, span: Span::default() },
        ResolutionOp::Define { name: "b".to_string(), value: 3, span: Span::default() },
    ];
    let mut ctx = CompilerContext::new();
    let kept = sweep_queue(&queue, &mut ctx);
    assert_eq!(kept.len(), 3);
    assert_eq!(ctx.get("a"), Some(1));
    let mut ctx = CompilerContext::new();
    let stalled = resolve_queue(queue, &mut ctx);
    assert_eq!(stalled.len(), 2);
    assert!(matches!(&stalled[0], ResolutionOp::Require { name, .. } if name == "missing"));
    assert!(matches!(&stalled[1], ResolutionOp::Define { name, value: 2, .. } if name == "a"));
    assert_eq!(ctx.get("b"), Some(3));
    let writes = vec![
        WriteOp::Origin(2),
        WriteOp::Word { symbol: "b".to_string(), span: Span::default() },
        WriteOp::Data(vec![0xAA]),
    ];
    ctx.set_address(0);
    emit_queue(&writes, &mut ctx);
    assert_eq!(ctx.binary, vec![0, 0, 3, 0, 0xAA]);
}

#[test]
fn tokens_must_belong_to_the_text() {
    let tokens = lex("sub boot {\n}\n");
    assert!(tokens_belong("sub boot {\n}\n", &tokens));
    assert!(!tokens_belong("sub", &tokens));
    let odd = vec![Token { ty: TokenType::Identifier, span: Span { pos: 2..1, line: 0..1, col: 0..1 } }];
    assert!(!tokens_belong("abc", &odd));
    let far = vec![Token {
        ty: TokenType::Identifier,
        span: Span { pos: 0..1, line: 0..usize::MAX, col: 0..1 },
    }];
    // lines and columns are as the tokens give them
    assert!(tokens_belong("abc", &far));
    match compile("abc", &far) {
        MultiResult::Failed(errors) => {
            assert_eq!(errors.len(), 1);
            assert_eq!(errors[0].message, "Unexpected token Identifier");
            assert_eq!(errors[0].span, far[0].span);
        }
        MultiResult::Done(_) => panic!("an identifier alone is no program"),
    }
}

#[test]
fn the_origin_line_moves_the_diagnostics_by_one_line() {
    let text = "sub boot {\n ld A, B\n jp nowhere\n ld A, $100\n}\nsub main {\n jp gone\n}\n";
    let plain = errors(text);
    let moved = errors(&format!("@origin(0)\n{}", text));
    assert_eq!(plain.len(), 2);
    assert_eq!(moved.len(), plain.len());
    for (a, b) in plain.iter().zip(moved.iter()) {
        assert_eq!(b.message, a.message);
        assert_eq!(b.span.pos, a.span.pos.start + 11..a.span.pos.end + 11);
        assert_eq!(b.span.line, a.span.line.start + 1..a.span.line.end + 1);
        assert_eq!(b.span.col, a.span.col);
    }
    let text = "sub boot {\n jp nowhere\n}\nrom Word : 2 = gone\n";
    let plain = errors(text);
    let moved = errors(&format!("@origin(0)\n{}", text));
    assert_eq!(plain.len(), 2);
    assert_eq!(plain[0].span, span(15..22, 1, 4..11));
    assert_eq!(plain[1].span, span(40..44, 3, 15..19));
    assert_eq!(moved[0].span, span(26..33, 2, 4..11));
    assert_eq!(moved[1].span, span(51..55, 4, 15..19));
}
