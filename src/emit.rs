//! Assembly text: GNU assembler (AT&T) syntax for x86-64.
use vstd::prelude::*;
use vstd::string::StringExecFns;
use crate::codegen::{Cond, Instr, LabelKind, CodegenError, gen_program, gen_stmt_spec};
use crate::node::Function;

verus! {

pub open spec fn digit_char(d: int) -> char {
    seq!['0', '1', '2', '3', '4', '5', '6', '7', '8', '9'][d]
}

/// The decimal digits of `n`.
pub open spec fn nat_decimal(n: nat) -> Seq<char>
    decreases n,
{
    if n < 10 {
        seq![digit_char(n as int)]
    } else {
        nat_decimal(n / 10) + seq![digit_char((n % 10) as int)]
    }
}

/// `n` in decimal, with a minus sign when negative.
pub open spec fn decimal(n: int) -> Seq<char> {
    if n < 0 {
        seq!['-'] + nat_decimal((-n) as nat)
    } else {
        nat_decimal(n as nat)
    }
}

fn digit_str(d: u64) -> (r: &'static str)
    requires
        d < 10,
    ensures
        r@ == seq![digit_char(d as int)],
{
    proof {
        reveal_strlit("0");
        reveal_strlit("1");
        reveal_strlit("2");
        reveal_strlit("3");
        reveal_strlit("4");
        reveal_strlit("5");
        reveal_strlit("6");
        reveal_strlit("7");
        reveal_strlit("8");
        reveal_strlit("9");
    }
    let r = if d == 0 {
        "0"
    } else if d == 1 {
        "1"
    } else if d == 2 {
        "2"
    } else if d == 3 {
        "3"
    } else if d == 4 {
        "4"
    } else if d == 5 {
        "5"
    } else if d == 6 {
        "6"
    } else if d == 7 {
        "7"
    } else if d == 8 {
        "8"
    } else {
        "9"
    };
    assert(r@ =~= seq![digit_char(d as int)]);
    r
}

fn nat_text(n: u64) -> (r: String)
    ensures
        r@ == nat_decimal(n as nat),
    decreases n,
{
    if n < 10 {
        digit_str(n).to_owned()
    } else {
        let mut s = nat_text(n / 10);
        s.append(digit_str(n % 10));
        s
    }
}

/// `n` in decimal.
pub fn int_text(n: i64) -> (r: String)
    requires
        n > i64::MIN,
    ensures
        r@ == decimal(n as int),
{
    if n < 0 {
        let mut s = "-".to_owned();
        proof {
            reveal_strlit("-");
        }
        s.append(nat_text((-n) as u64).as_str());
        assert(s@ =~= seq!['-'] + nat_decimal((-n) as nat));
        s
    } else {
        nat_text(n as u64)
    }
}

pub open spec fn label_prefix(k: LabelKind) -> Seq<char> {
    match k {
        LabelKind::Begin => ".L.begin."@,
        LabelKind::Else => ".L.else."@,
        LabelKind::End => ".L.end."@,
    }
}

/// The name of a label: its role and its number.
pub open spec fn label_text(k: LabelKind, n: u64) -> Seq<char> {
    label_prefix(k) + decimal(n as int)
}

pub open spec fn cond_text(c: Cond) -> Seq<char> {
    match c {
        Cond::Eq => "  sete %al\n"@,
        Cond::Ne => "  setne %al\n"@,
        Cond::Lt => "  setl %al\n"@,
        Cond::Le => "  setle %al\n"@,
    }
}

/// The lines of one instruction.
pub open spec fn instr_text(i: Instr) -> Seq<char> {
    match i {
        Instr::MovImm(n) => "  mov $"@ + decimal(n as int) + ", %rax\n"@,
        Instr::Lea(off) => "  lea "@ + decimal(off as int) + "(%rbp), %rax\n"@,
        Instr::Load => "  mov (%rax), %rax\n"@,
        Instr::Store => "  mov %rax, (%rdi)\n"@,
        Instr::Push => "  push %rax\n"@,
        Instr::PopRdi => "  pop %rdi\n"@,
        Instr::Neg => "  neg %rax\n"@,
        Instr::Add => "  add %rdi, %rax\n"@,
        Instr::Sub => "  sub %rdi, %rax\n"@,
        Instr::Imul => "  imul %rdi, %rax\n"@,
        Instr::Idiv => "  cqo\n  idiv %rdi\n"@,
        Instr::Compare(c) => "  cmp %rdi, %rax\n"@ + cond_text(c) + "  movzb %al, %rax\n"@,
        Instr::CmpZero => "  cmp $0, %rax\n"@,
        Instr::Je(k, n) => "  je "@ + label_text(k, n) + "\n"@,
        Instr::Jmp(k, n) => "  jmp "@ + label_text(k, n) + "\n"@,
        Instr::JmpReturn => "  jmp .L.return\n"@,
        Instr::Label(k, n) => label_text(k, n) + ":\n"@,
    }
}

/// The lines of a sequence of instructions.
pub open spec fn code_text(code: Seq<Instr>) -> Seq<char>
    decreases code.len(),
{
    if code.len() == 0 {
        Seq::empty()
    } else {
        code_text(code.drop_last()) + instr_text(code.last())
    }
}

/// A whole program: `main`, its prologue with a frame of `stack_size` bytes,
/// the body's code, and the epilogue that returns `rax`.
pub open spec fn program_text(stack_size: i32, code: Seq<Instr>) -> Seq<char> {
    "  .global main\nmain:\n  push %rbp\n  mov %rsp, %rbp\n  sub $"@ + decimal(stack_size as int)
        + ", %rsp\n\n"@ + code_text(code) + ".L.return:\n  mov %rbp, %rsp\n  pop %rbp\n  ret\n"@
}

fn label_string(k: LabelKind, n: u64) -> (r: String)
    ensures
        r@ == label_text(k, n),
{
    let mut s = match k {
        LabelKind::Begin => ".L.begin.".to_owned(),
        LabelKind::Else => ".L.else.".to_owned(),
        LabelKind::End => ".L.end.".to_owned(),
    };
    s.append(nat_text(n).as_str());
    s
}

/// The lines of one instruction.
pub fn instr_string(i: Instr) -> (r: String)
    ensures
        r@ == instr_text(i),
{
    match i {
        Instr::MovImm(n) => {
            let mut s = "  mov $".to_owned();
            s.append(int_text(n as i64).as_str());
            s.append(", %rax\n");
            s
        },
        Instr::Lea(off) => {
            let mut s = "  lea ".to_owned();
            s.append(int_text(off as i64).as_str());
            s.append("(%rbp), %rax\n");
            s
        },
        Instr::Load => "  mov (%rax), %rax\n".to_owned(),
        Instr::Store => "  mov %rax, (%rdi)\n".to_owned(),
        Instr::Push => "  push %rax\n".to_owned(),
        Instr::PopRdi => "  pop %rdi\n".to_owned(),
        Instr::Neg => "  neg %rax\n".to_owned(),
        Instr::Add => "  add %rdi, %rax\n".to_owned(),
        Instr::Sub => "  sub %rdi, %rax\n".to_owned(),
        Instr::Imul => "  imul %rdi, %rax\n".to_owned(),
        Instr::Idiv => "  cqo\n  idiv %rdi\n".to_owned(),
        Instr::Compare(c) => {
            let mut s = "  cmp %rdi, %rax\n".to_owned();
            match c {
                Cond::Eq => s.append("  sete %al\n"),
                Cond::Ne => s.append("  setne %al\n"),
                Cond::Lt => s.append("  setl %al\n"),
                Cond::Le => s.append("  setle %al\n"),
            }
            s.append("  movzb %al, %rax\n");
            s
        },
        Instr::CmpZero => "  cmp $0, %rax\n".to_owned(),
        Instr::Je(k, n) => {
            let mut s = "  je ".to_owned();
            s.append(label_string(k, n).as_str());
            s.append("\n");
            s
        },
        Instr::Jmp(k, n) => {
            let mut s = "  jmp ".to_owned();
            s.append(label_string(k, n).as_str());
            s.append("\n");
            s
        },
        Instr::JmpReturn => "  jmp .L.return\n".to_owned(),
        Instr::Label(k, n) => {
            let mut s = label_string(k, n);
            s.append(":\n");
            s
        },
    }
}

/// The assembly text of a program whose body's code is `code`.
pub fn emit(stack_size: i32, code: &Vec<Instr>) -> (r: String)
    ensures
        r@ == program_text(stack_size, code@),
{
    let mut s = "  .global main\nmain:\n  push %rbp\n  mov %rsp, %rbp\n  sub $".to_owned();
    s.append(int_text(stack_size as i64).as_str());
    s.append(", %rsp\n\n");
    let ghost head = s@;
    let mut k: usize = 0;
    assert(code@.subrange(0, 0) =~= Seq::<Instr>::empty());
    while k < code.len()
        invariant
            k <= code.len(),
            s@ == head + code_text(code@.subrange(0, k as int)),
        decreases code.len() - k,
    {
        let line = instr_string(code[k]);
        s.append(line.as_str());
        assert(code@.subrange(0, k as int + 1).drop_last() =~= code@.subrange(0, k as int));
        k = k + 1;
    }
    assert(code@.subrange(0, code.len() as int) =~= code@);
    s.append(".L.return:\n  mov %rbp, %rsp\n  pop %rbp\n  ret\n");
    s
}

/// The assembly text of a parsed function.
pub fn codegen(prog: &Function) -> (r: Result<String, CodegenError>)
    ensures
        match gen_stmt_spec(prog.body.view(), 1) {
            Ok((c, _)) => r matches Ok(t) && t@ == program_text(prog.stack_size, c),
            Err(e) => r matches Err(x) && x == e,
        },
{
    match gen_program(prog) {
        Ok(code) => Ok(emit(prog.stack_size, &code)),
        Err(e) => Err(e),
    }
}

} // verus!
