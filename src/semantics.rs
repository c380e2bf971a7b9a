//! What generated code does: a model of the machine, the value of an expression,
//! and the laws that tie the code generator to them.
use vstd::prelude::*;
use crate::codegen::{
    Cond, Instr, LabelKind, gen_expr_spec, gen_stmt_spec, gen_block_spec, gen_opt_stmt_spec,
    gen_opt_cond_spec, gen_opt_expr_spec, is_arith_or_cmp,
};
use crate::node::{Ast, NodeKind};
use crate::parse::p_function;
use crate::labels::{labels_unique, lemma_label_only_at};
use crate::tokenize::lex;

verus! {

/// The machine state that straight-line code reads and writes.
pub ghost struct Machine {
    pub rax: int,
    pub rdi: int,
    pub stack: Seq<int>,
    pub mem: Map<int, int>,
    pub rbp: int,
    /// The zero flag, as the last comparison left it.
    pub zf: bool,
}

/// `x` as a signed 64-bit value (two's complement wrap-around).
pub open spec fn wrap(x: int) -> int {
    (x + 0x8000_0000_0000_0000) % 0x1_0000_0000_0000_0000 - 0x8000_0000_0000_0000
}

/// Signed division rounding toward zero.
pub open spec fn trunc_div(a: int, b: int) -> int {
    let q = (if a < 0 { -a } else { a }) / (if b < 0 { -b } else { b });
    if (a < 0) != (b < 0) { -q } else { q }
}

/// `idiv` traps on a zero divisor and on a quotient that does not fit in 64 bits.
pub open spec fn div_faults(a: int, b: int) -> bool {
    b == 0 || trunc_div(a, b) > i64::MAX
}

pub open spec fn cond_holds(c: Cond, a: int, b: int) -> bool {
    match c {
        Cond::Eq => a == b,
        Cond::Ne => a != b,
        Cond::Lt => a < b,
        Cond::Le => a <= b,
    }
}

/// One instruction that does not transfer control; `None` where it traps or jumps.
pub open spec fn step(i: Instr, m: Machine) -> Option<Machine> {
    match i {
        Instr::MovImm(n) => Some(Machine { rax: n as int, ..m }),
        Instr::Lea(off) => Some(Machine { rax: m.rbp + off, ..m }),
        Instr::Load => Some(Machine { rax: m.mem[m.rax], ..m }),
        Instr::Store => Some(Machine { mem: m.mem.insert(m.rdi, m.rax), ..m }),
        Instr::Push => Some(Machine { stack: m.stack.push(m.rax), ..m }),
        Instr::PopRdi => if m.stack.len() == 0 {
            None
        } else {
            Some(Machine { rdi: m.stack.last(), stack: m.stack.drop_last(), ..m })
        },
        Instr::Neg => Some(Machine { rax: wrap(-m.rax), ..m }),
        Instr::Add => Some(Machine { rax: wrap(m.rax + m.rdi), ..m }),
        Instr::Sub => Some(Machine { rax: wrap(m.rax - m.rdi), ..m }),
        Instr::Imul => Some(Machine { rax: wrap(m.rax * m.rdi), ..m }),
        Instr::Idiv => if div_faults(m.rax, m.rdi) {
            None
        } else {
            Some(Machine { rax: trunc_div(m.rax, m.rdi), ..m })
        },
        Instr::Compare(c) => Some(
            Machine { rax: if cond_holds(c, m.rax, m.rdi) { 1 } else { 0 }, zf: m.rax == m.rdi, ..m },
        ),
        Instr::CmpZero => Some(Machine { zf: m.rax == 0, ..m }),
        Instr::Label(_, _) => Some(m),
        _ => None,
    }
}

/// Code without jumps run from `m`; `None` where an instruction traps or jumps.
pub open spec fn run(code: Seq<Instr>, m: Machine) -> Option<Machine>
    decreases code.len(),
{
    if code.len() == 0 {
        Some(m)
    } else {
        match step(code[0], m) {
            Some(m2) => run(code.drop_first(), m2),
            None => None,
        }
    }
}

/// The value of a binary operator on its operands' values; `None` where division traps.
pub open spec fn combine(k: NodeKind, a: int, b: int) -> Option<int> {
    match k {
        NodeKind::Add => Some(wrap(a + b)),
        NodeKind::Sub => Some(wrap(a - b)),
        NodeKind::Mul => Some(wrap(a * b)),
        NodeKind::Div => if div_faults(a, b) { None } else { Some(trunc_div(a, b)) },
        NodeKind::Eq => Some(if a == b { 1 } else { 0 }),
        NodeKind::Ne => Some(if a != b { 1 } else { 0 }),
        NodeKind::Lt => Some(if a < b { 1 } else { 0 }),
        _ => Some(if a <= b { 1 } else { 0 }),
    }
}

/// The value of an expression over 64-bit integers, with variables in `mem` at
/// `rbp` plus their offsets, and the memory after its assignments. The right
/// operand of a binary operator is evaluated first. `None` where division traps.
pub open spec fn eval(e: Ast, rbp: int, mem: Map<int, int>) -> Option<(int, Map<int, int>)>
    decreases e,
{
    match e {
        Ast::Num(n) => Some((n as int, mem)),
        Ast::Var(_, off) => Some((mem[rbp + off], mem)),
        Ast::Unary(k, x) => if k == NodeKind::Neg {
            match eval(*x, rbp, mem) {
                Some((v, m)) => Some((wrap(-v), m)),
                None => None,
            }
        } else {
            None
        },
        Ast::Binary(k, l, r) => if k == NodeKind::Assign {
            match *l {
                Ast::Var(_, off) => match eval(*r, rbp, mem) {
                    Some((v, m)) => Some((v, m.insert(rbp + off, v))),
                    None => None,
                },
                _ => None,
            }
        } else if is_arith_or_cmp(k) {
            match eval(*r, rbp, mem) {
                Some((b, m1)) => match eval(*l, rbp, m1) {
                    Some((a, m2)) => match combine(k, a, b) {
                        Some(v) => Some((v, m2)),
                        None => None,
                    },
                    None => None,
                },
                None => None,
            }
        } else {
            None
        },
        _ => None,
    }
}

pub proof fn lemma_run_append(a: Seq<Instr>, b: Seq<Instr>, m: Machine)
    ensures
        run(a + b, m) == match run(a, m) {
            Some(m1) => run(b, m1),
            None => None,
        },
    decreases a.len(),
{
    if a.len() > 0 {
        assert((a + b).drop_first() =~= a.drop_first() + b);
        assert((a + b)[0] == a[0]);
        match step(a[0], m) {
            Some(m2) => lemma_run_append(a.drop_first(), b, m2),
            None => {},
        }
    } else {
        assert(a + b =~= b);
    }
}

proof fn lemma_run_one(i: Instr, m: Machine)
    ensures
        run(seq![i], m) == step(i, m),
{
    let s = seq![i];
    assert(s.drop_first() =~= Seq::<Instr>::empty());
    match step(i, m) {
        Some(m2) => {
            assert(run(s.drop_first(), m2) == Some(m2));
        },
        None => {},
    }
}

proof fn lemma_run_two(i: Instr, j: Instr, m: Machine)
    ensures
        run(seq![i, j], m) == match step(i, m) {
            Some(m1) => step(j, m1),
            None => None,
        },
{
    assert(seq![i, j] =~= seq![i] + seq![j]);
    lemma_run_append(seq![i], seq![j], m);
    lemma_run_one(i, m);
    match step(i, m) {
        Some(m1) => lemma_run_one(j, m1),
        None => {},
    }
}

/// The code of an expression computes its value: run from any state, it ends
/// with the value in `rax`, the memory as the expression's assignments leave it,
/// and the stack as it found it; it traps exactly where the value is undefined.
#[verifier::rlimit(100)]
pub proof fn lemma_expr_code_computes_value(e: Ast, m: Machine)
    requires
        gen_expr_spec(e) is Ok,
    ensures
        match eval(e, m.rbp, m.mem) {
            Some((v, mem)) => run(gen_expr_spec(e)->Ok_0, m) matches Some(m2) && m2.rax == v
                && m2.mem == mem && m2.stack == m.stack && m2.rbp == m.rbp,
            None => run(gen_expr_spec(e)->Ok_0, m) is None,
        },
    decreases e,
{
    match e {
        Ast::Num(n) => {
            lemma_run_one(Instr::MovImm(n), m);
        },
        Ast::Var(_, off) => {
            lemma_run_two(Instr::Lea(off), Instr::Load, m);
        },
        Ast::Unary(k, x) => {
            let c = gen_expr_spec(*x)->Ok_0;
            lemma_expr_code_computes_value(*x, m);
            lemma_run_append(c, seq![Instr::Neg], m);
            match run(c, m) {
                Some(m1) => lemma_run_one(Instr::Neg, m1),
                None => {},
            }
        },
        Ast::Binary(k, l, r) => {
            if k == NodeKind::Assign {
                let off = (*l)->Var_1;
                let c = gen_expr_spec(*r)->Ok_0;
                let pre = seq![Instr::Lea(off), Instr::Push];
                let post = seq![Instr::PopRdi, Instr::Store];
                assert(gen_expr_spec(e)->Ok_0 == pre + c + post);
                lemma_run_append(pre + c, post, m);
                lemma_run_append(pre, c, m);
                lemma_run_two(Instr::Lea(off), Instr::Push, m);
                let m1 = Machine { rax: m.rbp + off, stack: m.stack.push(m.rbp + off), ..m };
                assert(run(pre, m) == Some(m1));
                lemma_expr_code_computes_value(*r, m1);
                match run(c, m1) {
                    Some(m2) => {
                        lemma_run_two(Instr::PopRdi, Instr::Store, m2);
                        assert(m2.stack.drop_last() =~= m.stack);
                    },
                    None => {},
                }
            } else {
                let cr = gen_expr_spec(*r)->Ok_0;
                let cl = gen_expr_spec(*l)->Ok_0;
                let op = crate::codegen::binop_code(k);
                let a1 = cr + seq![Instr::Push];
                let a2 = a1 + cl;
                let a3 = a2 + seq![Instr::PopRdi];
                assert(gen_expr_spec(e)->Ok_0 == a3 + op);
                lemma_run_append(a3, op, m);
                lemma_run_append(a2, seq![Instr::PopRdi], m);
                lemma_run_append(a1, cl, m);
                lemma_run_append(cr, seq![Instr::Push], m);
                lemma_expr_code_computes_value(*r, m);
                match run(cr, m) {
                    Some(m1) => {
                        lemma_run_one(Instr::Push, m1);
                        let mp = Machine { stack: m1.stack.push(m1.rax), ..m1 };
                        lemma_expr_code_computes_value(*l, mp);
                        match run(cl, mp) {
                            Some(m2) => {
                                lemma_run_one(Instr::PopRdi, m2);
                                let m3 = Machine { rdi: m2.stack.last(), stack: m2.stack.drop_last(), ..m2 };
                                assert(m3.stack =~= m.stack);
                                assert(m3.rdi == m1.rax);
                                match k {
                                    NodeKind::Add => lemma_run_one(Instr::Add, m3),
                                    NodeKind::Sub => lemma_run_one(Instr::Sub, m3),
                                    NodeKind::Mul => lemma_run_one(Instr::Imul, m3),
                                    NodeKind::Div => lemma_run_one(Instr::Idiv, m3),
                                    NodeKind::Eq => lemma_run_one(Instr::Compare(Cond::Eq), m3),
                                    NodeKind::Ne => lemma_run_one(Instr::Compare(Cond::Ne), m3),
                                    NodeKind::Lt => lemma_run_one(Instr::Compare(Cond::Lt), m3),
                                    _ => lemma_run_one(Instr::Compare(Cond::Le), m3),
                                }
                            },
                            None => {},
                        }
                    },
                    None => {},
                }
            }
        },
        _ => {},
    }
}

/// What an instruction does to the depth of the stack.
pub open spec fn stack_delta(i: Instr) -> int {
    match i {
        Instr::Push => 1,
        Instr::PopRdi => -1,
        _ => 0,
    }
}

/// The net change of stack depth over a sequence of instructions.
pub open spec fn stack_effect(code: Seq<Instr>) -> int
    decreases code.len(),
{
    if code.len() == 0 {
        0
    } else {
        stack_delta(code[0]) + stack_effect(code.drop_first())
    }
}

pub proof fn lemma_effect_append(a: Seq<Instr>, b: Seq<Instr>)
    ensures
        stack_effect(a + b) == stack_effect(a) + stack_effect(b),
    decreases a.len(),
{
    if a.len() > 0 {
        assert((a + b).drop_first() =~= a.drop_first() + b);
        assert((a + b)[0] == a[0]);
        lemma_effect_append(a.drop_first(), b);
    } else {
        assert(a + b =~= b);
    }
}

proof fn lemma_effect_flat(a: Seq<Instr>)
    requires
        forall|i: int| 0 <= i < a.len() ==> stack_delta(#[trigger] a[i]) == 0,
    ensures
        stack_effect(a) == 0,
    decreases a.len(),
{
    if a.len() > 0 {
        assert forall|i: int| 0 <= i < a.len() - 1 implies stack_delta(#[trigger] a.drop_first()[i]) == 0 by {
            assert(a.drop_first()[i] == a[i + 1]);
        }
        lemma_effect_flat(a.drop_first());
    }
}

/// The code of an expression pushes as often as it pops.
pub proof fn lemma_expr_stack_balanced(e: Ast)
    requires
        gen_expr_spec(e) is Ok,
    ensures
        stack_effect(gen_expr_spec(e)->Ok_0) == 0,
    decreases e,
{
    match e {
        Ast::Num(n) => lemma_effect_flat(seq![Instr::MovImm(n)]),
        Ast::Var(_, off) => lemma_effect_flat(seq![Instr::Lea(off), Instr::Load]),
        Ast::Unary(_, x) => {
            lemma_expr_stack_balanced(*x);
            lemma_effect_append(gen_expr_spec(*x)->Ok_0, seq![Instr::Neg]);
            lemma_effect_flat(seq![Instr::Neg]);
        },
        Ast::Binary(k, l, r) => {
            if k == NodeKind::Assign {
                let off = (*l)->Var_1;
                let c = gen_expr_spec(*r)->Ok_0;
                let pre = seq![Instr::Lea(off), Instr::Push];
                let post = seq![Instr::PopRdi, Instr::Store];
                lemma_expr_stack_balanced(*r);
                lemma_effect_append(pre + c, post);
                lemma_effect_append(pre, c);
                lemma_effect_append(seq![Instr::Lea(off)], seq![Instr::Push]);
                assert(pre == seq![Instr::Lea(off)] + seq![Instr::Push]);
                lemma_effect_append(seq![Instr::PopRdi], seq![Instr::Store]);
                assert(post == seq![Instr::PopRdi] + seq![Instr::Store]);
                lemma_effect_flat(seq![Instr::Lea(off)]);
                lemma_effect_flat(seq![Instr::Store]);
                assert(stack_effect(seq![Instr::Push]) == 1 + stack_effect(seq![Instr::Push].drop_first()));
                assert(stack_effect(seq![Instr::PopRdi]) == -1 + stack_effect(seq![Instr::PopRdi].drop_first()));
            } else {
                let cr = gen_expr_spec(*r)->Ok_0;
                let cl = gen_expr_spec(*l)->Ok_0;
                let op = crate::codegen::binop_code(k);
                lemma_expr_stack_balanced(*r);
                lemma_expr_stack_balanced(*l);
                lemma_effect_append(cr + seq![Instr::Push] + cl + seq![Instr::PopRdi], op);
                lemma_effect_append(cr + seq![Instr::Push] + cl, seq![Instr::PopRdi]);
                lemma_effect_append(cr + seq![Instr::Push], cl);
                lemma_effect_append(cr, seq![Instr::Push]);
                lemma_effect_flat(op);
                assert(stack_effect(seq![Instr::Push]) == 1 + stack_effect(seq![Instr::Push].drop_first()));
                assert(stack_effect(seq![Instr::PopRdi]) == -1 + stack_effect(seq![Instr::PopRdi].drop_first()));
            }
        },
        _ => {},
    }
}

/// The code of every statement leaves the stack as deep as it found it.
pub proof fn lemma_stmt_stack_balanced(a: Ast, l: int)
    requires
        gen_stmt_spec(a, l) is Ok,
    ensures
        stack_effect(gen_stmt_spec(a, l)->Ok_0.0) == 0,
    decreases a, 1int,
{
    match a {
        Ast::Unary(k, e) => {
            lemma_expr_stack_balanced(*e);
            lemma_effect_append(gen_expr_spec(*e)->Ok_0, seq![Instr::JmpReturn]);
            lemma_effect_flat(seq![Instr::JmpReturn]);
        },
        Ast::Block(ss) => lemma_block_stack_balanced(ss, l),
        Ast::If(c, t, e) => {
            let cc = gen_expr_spec(*c)->Ok_0;
            let (ct, l2) = gen_stmt_spec(*t, l + 1)->Ok_0;
            let ce = gen_opt_stmt_spec(e, l2)->Ok_0.0;
            let j1 = seq![Instr::CmpZero, Instr::Je(crate::codegen::LabelKind::Else, l as u64)];
            let j2 = seq![Instr::Jmp(crate::codegen::LabelKind::End, l as u64), Instr::Label(crate::codegen::LabelKind::Else, l as u64)];
            let j3 = seq![Instr::Label(crate::codegen::LabelKind::End, l as u64)];
            lemma_expr_stack_balanced(*c);
            lemma_stmt_stack_balanced(*t, l + 1);
            match e {
                Some(x) => lemma_stmt_stack_balanced(*x, l2),
                None => {},
            }
            lemma_effect_flat(j1);
            lemma_effect_flat(j2);
            lemma_effect_flat(j3);
            lemma_effect_flat(Seq::<Instr>::empty());
            lemma_effect_append(cc + j1 + ct + j2 + ce, j3);
            lemma_effect_append(cc + j1 + ct + j2, ce);
            lemma_effect_append(cc + j1 + ct, j2);
            lemma_effect_append(cc + j1, ct);
            lemma_effect_append(cc, j1);
        },
        Ast::For(i, c, n, b) => {
            let (ci, l2) = gen_opt_stmt_spec(i, l + 1)->Ok_0;
            let cc = gen_opt_cond_spec(c, l)->Ok_0;
            let (cb, l3) = gen_stmt_spec(*b, l2)->Ok_0;
            let cn = gen_opt_expr_spec(n)->Ok_0;
            let j1 = seq![Instr::Label(crate::codegen::LabelKind::Begin, l as u64)];
            let j2 = seq![Instr::Jmp(crate::codegen::LabelKind::Begin, l as u64), Instr::Label(crate::codegen::LabelKind::End, l as u64)];
            match i {
                Some(x) => lemma_stmt_stack_balanced(*x, l + 1),
                None => lemma_effect_flat(Seq::<Instr>::empty()),
            }
            match c {
                Some(x) => {
                    let j = seq![Instr::CmpZero, Instr::Je(crate::codegen::LabelKind::End, l as u64)];
                    lemma_expr_stack_balanced(*x);
                    lemma_effect_flat(j);
                    lemma_effect_append(gen_expr_spec(*x)->Ok_0, j);
                },
                None => lemma_effect_flat(Seq::<Instr>::empty()),
            }
            match n {
                Some(x) => lemma_expr_stack_balanced(*x),
                None => lemma_effect_flat(Seq::<Instr>::empty()),
            }
            lemma_stmt_stack_balanced(*b, l2);
            lemma_effect_flat(j1);
            lemma_effect_flat(j2);
            lemma_effect_append(ci + j1 + cc + cb + cn, j2);
            lemma_effect_append(ci + j1 + cc + cb, cn);
            lemma_effect_append(ci + j1 + cc, cb);
            lemma_effect_append(ci + j1, cc);
            lemma_effect_append(ci, j1);
        },
        _ => {},
    }
}

/// The code of a sequence of statements leaves the stack as deep as it found it.
pub proof fn lemma_block_stack_balanced(ss: Seq<Ast>, l: int)
    requires
        gen_block_spec(ss, l) is Ok,
    ensures
        stack_effect(gen_block_spec(ss, l)->Ok_0.0) == 0,
    decreases ss, 0int,
{
    if ss.len() == 0 {
        lemma_effect_flat(Seq::<Instr>::empty());
    } else {
        let (c, l2) = gen_stmt_spec(ss[0], l)->Ok_0;
        lemma_stmt_stack_balanced(ss[0], l);
        lemma_block_stack_balanced(ss.drop_first(), l2);
        lemma_effect_append(c, gen_block_spec(ss.drop_first(), l2)->Ok_0.0);
    }
}

/// A comparison's code leaves 0 or 1 in `rax`: 1 exactly where the comparison holds
/// of its operands' values.
pub proof fn lemma_comparison_is_boolean(k: NodeKind, l: Ast, r: Ast, m: Machine)
    requires
        k == NodeKind::Eq || k == NodeKind::Ne || k == NodeKind::Lt || k == NodeKind::Le,
        gen_expr_spec(Ast::Binary(k, Box::new(l), Box::new(r))) is Ok,
    ensures
        ({
            let e = Ast::Binary(k, Box::new(l), Box::new(r));
            let code = gen_expr_spec(e)->Ok_0;
            match eval(r, m.rbp, m.mem) {
                Some((b, m1)) => match eval(l, m.rbp, m1) {
                    Some((a, _)) => run(code, m) matches Some(m2) && m2.rax == (if (k == NodeKind::Eq
                        && a == b) || (k == NodeKind::Ne && a != b) || (k == NodeKind::Lt && a < b)
                        || (k == NodeKind::Le && a <= b) { 1int } else { 0int }),
                    None => run(code, m) is None,
                },
                None => run(code, m) is None,
            }
        }),
{
    lemma_expr_code_computes_value(Ast::Binary(k, Box::new(l), Box::new(r)), m);
}

/// The position of the label `(k, n)` in a program, where there is one.
pub open spec fn label_pos(prog: Seq<Instr>, k: LabelKind, n: u64) -> int {
    choose|p: int| 0 <= p < prog.len() && prog[p] == Instr::Label(k, n)
}

/// One instruction of a whole program at `pc`: the next position and state;
/// `None` where it traps, returns or runs off the program.
pub open spec fn prog_step(prog: Seq<Instr>, pc: int, m: Machine) -> Option<(int, Machine)> {
    if pc < 0 || pc >= prog.len() {
        None
    } else {
        match prog[pc] {
            Instr::Je(k, n) => if m.zf {
                Some((label_pos(prog, k, n), m))
            } else {
                Some((pc + 1, m))
            },
            Instr::Jmp(k, n) => Some((label_pos(prog, k, n), m)),
            Instr::JmpReturn => None,
            i => match step(i, m) {
                Some(m2) => Some((pc + 1, m2)),
                None => None,
            },
        }
    }
}

/// `fuel` instructions of a program from position `pc`.
pub open spec fn prog_run(prog: Seq<Instr>, pc: int, m: Machine, fuel: nat) -> Option<(int, Machine)>
    decreases fuel,
{
    if fuel == 0 {
        Some((pc, m))
    } else {
        match prog_step(prog, pc, m) {
            Some((pc2, m2)) => prog_run(prog, pc2, m2, (fuel - 1) as nat),
            None => None,
        }
    }
}

pub proof fn lemma_prog_run_add(prog: Seq<Instr>, pc: int, m: Machine, a: nat, b: nat)
    ensures
        prog_run(prog, pc, m, a + b) == match prog_run(prog, pc, m, a) {
            Some((pc2, m2)) => prog_run(prog, pc2, m2, b),
            None => None,
        },
    decreases a,
{
    if a > 0 {
        match prog_step(prog, pc, m) {
            Some((pc2, m2)) => {
                assert((a + b - 1) as nat == ((a - 1) as nat + b) as nat);
                lemma_prog_run_add(prog, pc2, m2, (a - 1) as nat, b);
            },
            None => {},
        }
    }
}

/// Code without jumps, standing at `p` in a program, runs there as it runs alone.
pub proof fn lemma_prog_run_straight(prog: Seq<Instr>, p: int, seg: Seq<Instr>, m: Machine)
    requires
        0 <= p,
        p + seg.len() <= prog.len(),
        prog.subrange(p, p + seg.len()) == seg,
        run(seg, m) is Some,
    ensures
        prog_run(prog, p, m, seg.len()) == Some((p + seg.len(), run(seg, m)->Some_0)),
    decreases seg.len(),
{
    if seg.len() > 0 {
        assert(prog[p] == seg[0]);
        let m1 = step(seg[0], m)->Some_0;
        assert(prog.subrange(p + 1, p + 1 + seg.drop_first().len()) =~= seg.drop_first());
        lemma_prog_run_straight(prog, p + 1, seg.drop_first(), m1);
        assert(prog_step(prog, p, m) == Some((p + 1, m1)));
        assert((seg.len() - 1) as nat == seg.drop_first().len());
    }
}

/// A loop whose condition is false when the loop is entered runs neither its
/// body nor its increment: from its begin label, its code evaluates the condition
/// once and jumps to its end label, the last instruction of the loop's code.
/// The loop's code stands at `p` in a program whose labels are unique, as
/// `lemma_block_labels` shows of generated code.
pub proof fn lemma_false_condition_skips_loop(
    prog: Seq<Instr>,
    p: int,
    i: Option<Box<Ast>>,
    c: Ast,
    n: Option<Box<Ast>>,
    b: Ast,
    l: int,
    m: Machine,
)
    requires
        0 <= l < u64::MAX,
        gen_stmt_spec(Ast::For(i, Some(Box::new(c)), n, Box::new(b)), l) is Ok,
        ({
            let code = gen_stmt_spec(Ast::For(i, Some(Box::new(c)), n, Box::new(b)), l)->Ok_0.0;
            &&& 0 <= p
            &&& p + code.len() <= prog.len()
            &&& prog.subrange(p, p + code.len()) == code
            &&& labels_unique(prog)
        }),
        eval(c, m.rbp, m.mem) matches Some((v, _)) && v == 0,
    ensures
        ({
            let code = gen_stmt_spec(Ast::For(i, Some(Box::new(c)), n, Box::new(b)), l)->Ok_0.0;
            let ci = gen_opt_stmt_spec(i, l + 1)->Ok_0.0;
            let ce = gen_expr_spec(c)->Ok_0;
            let begin = p + ci.len();
            prog_run(prog, begin, m, (ce.len() + 3) as nat) matches Some((pc, m2)) && pc == p
                + code.len() - 1 && m2.mem == eval(c, m.rbp, m.mem)->Some_0.1 && m2.stack == m.stack
        }),
{
    let code = gen_stmt_spec(Ast::For(i, Some(Box::new(c)), n, Box::new(b)), l)->Ok_0.0;
    let ci = gen_opt_stmt_spec(i, l + 1)->Ok_0.0;
    let l2 = gen_opt_stmt_spec(i, l + 1)->Ok_0.1;
    let ce = gen_expr_spec(c)->Ok_0;
    let cb = gen_stmt_spec(b, l2)->Ok_0.0;
    let cn = gen_opt_expr_spec(n)->Ok_0;
    let lb = l as u64;
    let cc = ce + seq![Instr::CmpZero, Instr::Je(LabelKind::End, lb)];
    assert(code == ci + seq![Instr::Label(LabelKind::Begin, lb)] + cc + cb + cn + seq![
        Instr::Jmp(LabelKind::Begin, lb),
        Instr::Label(LabelKind::End, lb),
    ]);
    let begin = p + ci.len();
    let seg = seq![Instr::Label(LabelKind::Begin, lb)] + ce + seq![Instr::CmpZero];
    assert forall|k: int| 0 <= k < seg.len() implies prog[begin + k] == #[trigger] seg[k] by {
        assert(prog[begin + k] == prog.subrange(p, p + code.len())[ci.len() + k]);
        assert(code[ci.len() + k] == seg[k]);
    }
    assert(prog.subrange(begin, begin + seg.len()) =~= seg);
    lemma_expr_code_computes_value(c, m);
    let m1 = run(ce, m)->Some_0;
    lemma_run_append(seq![Instr::Label(LabelKind::Begin, lb)] + ce, seq![Instr::CmpZero], m);
    lemma_run_append(seq![Instr::Label(LabelKind::Begin, lb)], ce, m);
    lemma_run_one(Instr::Label(LabelKind::Begin, lb), m);
    lemma_run_one(Instr::CmpZero, m1);
    let m2 = Machine { zf: true, ..m1 };
    assert(run(seg, m) == Some(m2));
    lemma_prog_run_straight(prog, begin, seg, m);
    let je = begin + seg.len();
    assert(prog[je] == code[ci.len() + seg.len() as int]);
    assert(code[ci.len() + seg.len() as int] == Instr::Je(LabelKind::End, lb));
    let end = p + code.len() - 1;
    assert(prog[end] == prog.subrange(p, p + code.len())[code.len() - 1]);
    assert(code[code.len() - 1] == Instr::Label(LabelKind::End, lb));
    assert(prog[end] == Instr::Label(LabelKind::End, lb));
    assert forall|q: int| 0 <= q < prog.len() && q != end implies prog[q] != Instr::Label(LabelKind::End, lb) by {
        lemma_label_only_at(prog, end, q);
    }
    let t = label_pos(prog, LabelKind::End, lb);
    assert(0 <= t < prog.len() && prog[t] == Instr::Label(LabelKind::End, lb));
    assert(t == end);
    assert(prog_step(prog, je, m2) == Some((end, m2)));
    assert(prog_run(prog, end, m2, 0) == Some((end, m2)));
    assert(prog_run(prog, je, m2, 1) == Some((end, m2)));
    lemma_prog_run_add(prog, begin, m, seg.len(), 1);
    assert(seg.len() + 1 == ce.len() + 3);
}

/// A program `{ return e; }` returns the value of `e`: the code of its body
/// computes that value into `rax` and reaches the jump to the epilogue, which
/// returns `rax` as the exit status.
pub proof fn lemma_return_program_value(src: Seq<char>, e: Ast, m: Machine)
    requires
        lex(src) matches Ok(ts) && p_function(ts) matches Ok((b, _)) && b == seq![
            Ast::Unary(NodeKind::Return, Box::new(e)),
        ],
        gen_expr_spec(e) is Ok,
        eval(e, m.rbp, m.mem) is Some,
    ensures
        ({
            let code = gen_expr_spec(e)->Ok_0 + seq![Instr::JmpReturn];
            let body = Ast::Block(seq![Ast::Unary(NodeKind::Return, Box::new(e))]);
            &&& gen_stmt_spec(body, 1) == Ok::<(Seq<Instr>, int), crate::codegen::CodegenError>((code, 1))
            &&& prog_run(code, 0, m, (code.len() - 1) as nat) matches Some((pc, m2)) && pc == code.len() - 1
                && code[pc] == Instr::JmpReturn && m2.rax == eval(e, m.rbp, m.mem)->Some_0.0
        }),
{
    let ce = gen_expr_spec(e)->Ok_0;
    let code = ce + seq![Instr::JmpReturn];
    let r = Ast::Unary(NodeKind::Return, Box::new(e));
    assert(gen_stmt_spec(r, 1) == Ok::<(Seq<Instr>, int), crate::codegen::CodegenError>((code, 1)));
    assert(seq![r].drop_first() =~= Seq::<Ast>::empty());
    assert(gen_block_spec(Seq::<Ast>::empty(), 1) == Ok::<(Seq<Instr>, int), crate::codegen::CodegenError>((Seq::empty(), 1)));
    assert(code + Seq::<Instr>::empty() =~= code);
    assert(gen_block_spec(seq![r], 1) == Ok::<(Seq<Instr>, int), crate::codegen::CodegenError>((code, 1)));
    lemma_expr_code_computes_value(e, m);
    assert(code.subrange(0, ce.len() as int) =~= ce);
    lemma_prog_run_straight(code, 0, ce, m);
}

} // verus!
