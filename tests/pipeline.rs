use std::collections::HashMap;

use chibicc::codegen::{gen_program, CodegenError, Cond, Instr, LabelKind};
use chibicc::compile::{compile, CompileError};
use chibicc::emit::{codegen, instr_string, int_text};
use chibicc::node::{Function, NodeKind};
use chibicc::parse::{align_to, parse, ParseError, ParseErrorKind};
use chibicc::token::{Token, TokenKind};
use chibicc::tokenize::{parse_number, tokenize, LexError, LexErrorKind};

/// Runs generated code on a model of the machine and returns `rax` at the end.
fn run(code: &[Instr]) -> i64 {
    let mut labels: HashMap<(LabelKind, u64), usize> = HashMap::new();
    for (i, ins) in code.iter().enumerate() {
        if let Instr::Label(k, n) = ins {
            labels.insert((*k, *n), i);
        }
    }
    let rbp: i64 = 1 << 20;
    let (mut rax, mut rdi) = (0i64, 0i64);
    let mut stack: Vec<i64> = Vec::new();
    let mut mem: HashMap<i64, i64> = HashMap::new();
    let mut pc = 0usize;
    let mut fuel = 1_000_000u32;
    while pc < code.len() {
        fuel -= 1;
        assert!(fuel > 0, "program does not stop");
        let mut next = pc + 1;
        match code[pc] {
            Instr::MovImm(n) => rax = n as i64,
            Instr::Lea(off) => rax = rbp + off as i64,
            Instr::Load => rax = *mem.get(&rax).unwrap_or(&0),
            Instr::Store => {
                mem.insert(rdi, rax);
            }
            Instr::Push => stack.push(rax),
            Instr::PopRdi => rdi = stack.pop().expect("pop of an empty stack"),
            Instr::Neg => rax = rax.wrapping_neg(),
            Instr::Add => rax = rax.wrapping_add(rdi),
            Instr::Sub => rax = rax.wrapping_sub(rdi),
            Instr::Imul => rax = rax.wrapping_mul(rdi),
            Instr::Idiv => rax /= rdi,
            Instr::Compare(c) => {
                let b = match c {
                    Cond::Eq => rax == rdi,
                    Cond::Ne => rax != rdi,
                    Cond::Lt => rax < rdi,
                    Cond::Le => rax <= rdi,
                };
                rax = b as i64;
            }
            Instr::CmpZero => {}
            Instr::Je(k, n) => {
                if rax == 0 {
                    next = labels[&(k, n)];
                }
            }
            Instr::Jmp(k, n) => next = labels[&(k, n)],
            Instr::JmpReturn => break,
            Instr::Label(_, _) => {}
        }
        pc = next;
    }
    assert!(stack.is_empty(), "stack not balanced at return");
    rax
}

fn front(src: &str) -> Function {
    let tok = tokenize(src).expect("lexes");
    parse(tok).expect("parses")
}

fn eval(src: &str) -> i64 {
    let prog = front(src);
    let code = gen_program(&prog).expect("generates");
    run(&code)
}

fn kinds(mut t: &Token) -> Vec<(TokenKind, Option<i32>, Option<String>, usize)> {
    let mut v = Vec::new();
    loop {
        v.push((t.kind, t.num, t.string.clone(), t.location));
        match &t.next {
            Some(n) => t = n,
            None => return v,
        }
    }
}

#[test]
fn precedence_mixed() {
    assert_eq!(eval("{ return 1+2*3-4; }"), 3);
}

#[test]
fn precedence_parentheses() {
    assert_eq!(eval("{ return (1+2)*3; }"), 9);
    assert_eq!(eval("{ return 5*(9-6); }"), 15);
    assert_eq!(eval("{ return (3+5)/2; }"), 4);
}

#[test]
fn left_associative_operators() {
    assert_eq!(eval("{ return 10-3-2; }"), 5);
    assert_eq!(eval("{ return 100/10/5; }"), 2);
    assert_eq!(eval("{ return 10/3*3; }"), 9);
}

#[test]
fn unary_operators() {
    assert_eq!(eval("{ return -10+20; }"), 10);
    assert_eq!(eval("{ return - -10; }"), 10);
    assert_eq!(eval("{ return - - +10; }"), 10);
    assert_eq!(eval("{ return -7/2; }"), -3);
}

#[test]
fn variable_identity() {
    assert_eq!(eval("{ a=3; b=a+2; return a+b; }"), 8);
    let prog = front("{ foo=1; bar=2; foo=foo+bar; return foo; }");
    assert_eq!(prog.locals.len(), 2);
    assert_eq!(prog.locals[0].name, "foo");
    assert_eq!(prog.locals[0].offset, -8);
    assert_eq!(prog.locals[1].name, "bar");
    assert_eq!(prog.locals[1].offset, -16);
    assert_eq!(prog.stack_size, 16);
}

#[test]
fn assignment_is_right_associative() {
    assert_eq!(eval("{ a=b=5; return a*b; }"), 25);
}

#[test]
fn frame_size_is_aligned() {
    assert_eq!(front("{ a=1; b=2; c=3; return 0; }").stack_size, 32);
    assert_eq!(front("{ return 0; }").stack_size, 0);
    assert_eq!(front("{ x=1; return x; }").stack_size, 16);
}

#[test]
fn stack_balance() {
    let prog = front("{ a=1; b=(a+2)*(a-3)/(4+a); if (a<b) a=b; for (a=0; a<2; a=a+1) b=b+a; return b; }");
    let code = gen_program(&prog).unwrap();
    let pushes = code.iter().filter(|i| matches!(i, Instr::Push)).count();
    let pops = code.iter().filter(|i| matches!(i, Instr::PopRdi)).count();
    assert_eq!(pushes, pops);
    run(&code);
}

#[test]
fn conditional_false_branch() {
    assert_eq!(eval("{ if (0) return 1; else return 2; }"), 2);
}

#[test]
fn conditional_true_branch() {
    assert_eq!(eval("{ if (1) return 1; else return 2; }"), 1);
    assert_eq!(eval("{ if (1-1) return 2; return 3; }"), 3);
}

#[test]
fn loop_runs_to_bound() {
    assert_eq!(eval("{ i=0; for (; i<3; i=i+1) ; return i; }"), 3);
    assert_eq!(eval("{ j=0; for (i=0; i<=10; i=i+1) j=i+j; return j; }"), 55);
    assert_eq!(eval("{ i=0; while (i<10) i=i+1; return i; }"), 10);
}

#[test]
fn loop_with_false_condition_never_runs() {
    assert_eq!(eval("{ j=7; for (;0;) j=1; return j; }"), 7);
    assert_eq!(eval("{ j=7; while (j<0) j=1; return j; }"), 7);
}

#[test]
fn loop_without_condition_left_by_return() {
    assert_eq!(eval("{ for (;;) return 3; return 5; }"), 3);
}

#[test]
fn comparison_booleans() {
    assert_eq!(eval("{ 1<2; }"), 1);
    assert_eq!(eval("{ 2<1; }"), 0);
    assert_eq!(eval("{ return 2<=2; }"), 1);
    assert_eq!(eval("{ return 3==3; }"), 1);
    assert_eq!(eval("{ return 3!=3; }"), 0);
    assert_eq!(eval("{ return 2>1; }"), 1);
    assert_eq!(eval("{ return 1>=2; }"), 0);
}

#[test]
fn greater_than_takes_an_equality_operand() {
    let prog = front("{ return 1>2==0; }");
    let ret = prog.body.body.as_ref().unwrap();
    let cmp = ret.lhs.as_ref().unwrap();
    assert!(cmp.kind == NodeKind::Lt);
    assert!(cmp.rhs.as_ref().unwrap().kind == NodeKind::Num);
    assert!(cmp.lhs.as_ref().unwrap().kind == NodeKind::Eq);
    assert_eq!(eval("{ return 1>2==0; }"), 1);
}

#[test]
fn relex_is_identical() {
    let src = "{ a = 12; if (a >= 3) return a != 4; }";
    let a = tokenize(src).unwrap();
    let b = tokenize(src).unwrap();
    assert_eq!(kinds(&a), kinds(&b));
}

#[test]
fn tokens_carry_kind_value_text_offset() {
    let t = tokenize("{ return x1<=42; }").unwrap();
    let v = kinds(&t);
    assert_eq!(v.len(), 8);
    assert_eq!(v[0], (TokenKind::Punct, None, Some("{".to_string()), 0));
    assert_eq!(v[1], (TokenKind::Keyword, None, Some("return".to_string()), 2));
    assert_eq!(v[2], (TokenKind::Ident, None, Some("x1".to_string()), 9));
    assert_eq!(v[3], (TokenKind::Punct, None, Some("<=".to_string()), 11));
    assert_eq!(v[4], (TokenKind::Num, Some(42), None, 13));
    assert_eq!(v[7], (TokenKind::Eof, None, None, 18));
}

#[test]
fn keywords_are_reserved_words_only() {
    let t = tokenize("while whilex else _if").unwrap();
    let v = kinds(&t);
    assert_eq!(v[0].0, TokenKind::Keyword);
    assert_eq!(v[1].0, TokenKind::Ident);
    assert_eq!(v[2].0, TokenKind::Keyword);
    assert_eq!(v[3].0, TokenKind::Ident);
}

#[test]
fn empty_source_lexes_to_sentinel() {
    let v = kinds(&tokenize("  \t\n").unwrap());
    assert_eq!(v, vec![(TokenKind::Eof, None, None, 4)]);
}

#[test]
fn lex_error_invalid_character() {
    assert_eq!(
        tokenize("{ return 1 \u{e9} 2; }").err(),
        Some(LexError { location: 11, kind: LexErrorKind::InvalidToken })
    );
}

#[test]
fn lex_error_unsupported_punctuation() {
    assert_eq!(
        tokenize("@").err(),
        Some(LexError { location: 0, kind: LexErrorKind::InvalidToken })
    );
    assert_eq!(
        tokenize("{ a = !b; }").err(),
        Some(LexError { location: 6, kind: LexErrorKind::InvalidToken })
    );
    assert_eq!(
        tokenize("{ a[1]; }").err(),
        Some(LexError { location: 3, kind: LexErrorKind::InvalidToken })
    );
    let v = kinds(&tokenize("+-*/()<>;={}").unwrap());
    assert_eq!(v.len(), 13);
    assert!(v[..12].iter().all(|t| t.0 == TokenKind::Punct));
    let v = kinds(&tokenize("a!=b").unwrap());
    assert_eq!(v[1].2, Some("!=".to_string()));
}

#[test]
fn lex_error_number_out_of_range() {
    assert_eq!(
        tokenize("{ return 2147483648; }").err(),
        Some(LexError { location: 9, kind: LexErrorKind::NumberOutOfRange })
    );
    assert_eq!(eval("{ return 2147483647; }"), 2147483647);
}

#[test]
fn parse_number_reads_digit_run() {
    assert_eq!(parse_number("123abc", 0), Some((123, 3)));
    assert_eq!(parse_number("x 0042;", 2), Some((42, 4)));
    assert_eq!(parse_number("abc", 0), Some((0, 0)));
    assert_eq!(parse_number("99999999999", 0), None);
}

#[test]
fn parse_error_missing_semicolon() {
    let tok = tokenize("{ return 1 }").unwrap();
    assert_eq!(
        parse(tok).err(),
        Some(ParseError { location: 11, kind: ParseErrorKind::Expected(';') })
    );
}

#[test]
fn parse_error_expected_expression() {
    let tok = tokenize("{ return ; }").unwrap();
    assert_eq!(
        parse(tok).err(),
        Some(ParseError { location: 9, kind: ParseErrorKind::ExpectedExpression })
    );
}

#[test]
fn parse_error_missing_brace() {
    let tok = tokenize("return 1;").unwrap();
    assert_eq!(
        parse(tok).err(),
        Some(ParseError { location: 0, kind: ParseErrorKind::Expected('{') })
    );
    let tok = tokenize("{ return 1;").unwrap();
    assert_eq!(
        parse(tok).err(),
        Some(ParseError { location: 11, kind: ParseErrorKind::ExpectedExpression })
    );
}

#[test]
fn parse_error_missing_parentheses() {
    let tok = tokenize("{ if 1) return 2; }").unwrap();
    assert_eq!(
        parse(tok).err(),
        Some(ParseError { location: 5, kind: ParseErrorKind::Expected('(') })
    );
    let tok = tokenize("{ return (1+2; }").unwrap();
    assert_eq!(
        parse(tok).err(),
        Some(ParseError { location: 13, kind: ParseErrorKind::Expected(')') })
    );
}

#[test]
fn codegen_error_not_an_lvalue() {
    let prog = front("{ 1=2; }");
    assert_eq!(gen_program(&prog).err(), Some(CodegenError::NotAnLvalue));
    assert_eq!(compile("{ (a+1)=2; }").err(), Some(CompileError::Codegen(CodegenError::NotAnLvalue)));
}

#[test]
fn compile_reports_each_stage() {
    assert_eq!(
        compile("{ return 1 # 2; }").err(),
        Some(CompileError::Lex(LexError { location: 11, kind: LexErrorKind::InvalidToken }))
    );
    assert!(matches!(compile("{ return 1 2; }"), Err(CompileError::Parse(_))));
    assert!(matches!(compile("{ return 1 \u{3b1}; }"), Err(CompileError::Lex(_))));
}

#[test]
fn emitted_text_of_a_small_program() {
    let text = compile("{ return 42; }").unwrap();
    assert_eq!(
        text,
        "  .global main\nmain:\n  push %rbp\n  mov %rsp, %rbp\n  sub $0, %rsp\n\n  mov $42, %rax\n  jmp .L.return\n.L.return:\n  mov %rbp, %rsp\n  pop %rbp\n  ret\n"
    );
}

#[test]
fn emitted_text_of_branches_and_variables() {
    let prog = front("{ x=5; if (x) return -x; }");
    let text = codegen(&prog).unwrap();
    assert!(text.contains("  sub $16, %rsp\n"));
    assert!(text.contains("  lea -8(%rbp), %rax\n  push %rax\n  mov $5, %rax\n  pop %rdi\n  mov %rax, (%rdi)\n"));
    assert!(text.contains("  cmp $0, %rax\n  je .L.else.1\n"));
    assert!(text.contains("  mov (%rax), %rax\n  neg %rax\n  jmp .L.return\n  jmp .L.end.1\n.L.else.1:\n.L.end.1:\n"));
}

#[test]
fn instruction_text() {
    assert_eq!(instr_string(Instr::Lea(-24)), "  lea -24(%rbp), %rax\n");
    assert_eq!(instr_string(Instr::Idiv), "  cqo\n  idiv %rdi\n");
    assert_eq!(instr_string(Instr::Compare(Cond::Le)), "  cmp %rdi, %rax\n  setle %al\n  movzb %al, %rax\n");
    assert_eq!(instr_string(Instr::Label(LabelKind::Begin, 12)), ".L.begin.12:\n");
    assert_eq!(instr_string(Instr::Jmp(LabelKind::End, 3)), "  jmp .L.end.3\n");
}

#[test]
fn integer_text() {
    assert_eq!(int_text(0), "0");
    assert_eq!(int_text(-1234), "-1234");
    assert_eq!(int_text(9876543210), "9876543210");
}

#[test]
fn label_numbers_are_unique_per_statement() {
    let prog = front("{ if (1) { if (0) return 1; } while (0) ; return 2; }");
    let code = gen_program(&prog).unwrap();
    let mut seen: Vec<(LabelKind, u64)> = Vec::new();
    for i in &code {
        if let Instr::Label(k, n) = i {
            assert!(!seen.contains(&(*k, *n)));
            seen.push((*k, *n));
        }
    }
    assert!(seen.contains(&(LabelKind::Else, 1)));
    assert!(seen.contains(&(LabelKind::Else, 2)));
    assert!(seen.contains(&(LabelKind::Begin, 3)));
    assert_eq!(eval("{ if (1) { if (0) return 1; } while (0) ; return 2; }"), 2);
}

#[test]
fn align_to_rounds_up() {
    assert_eq!(align_to(5, 8), 8);
    assert_eq!(align_to(11, 8), 16);
    assert_eq!(align_to(16, 16), 16);
    assert_eq!(align_to(0, 16), 0);
}

#[test]
fn parsed_programs_never_fault_inside_the_generator() {
    for src in [
        "{ return 1; }",
        "{ ; ; { } return 0; }",
        "{ a=1; if (a) { b=a; } else if (b) c=2; else ; return a+b+c; }",
        "{ for (;;) { while (1) return 4; } }",
        "{ x=(y=3)*2; return x/y; }",
    ] {
        let prog = front(src);
        assert!(gen_program(&prog).is_ok(), "{}", src);
    }
}
