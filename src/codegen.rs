//! The code generator: a syntax tree to stack-machine instructions.
use vstd::prelude::*;
use crate::node::{Ast, Node, NodeKind, Function, opt_view, operand_view};

verus! {

/// The condition that a comparison materialises as 0 or 1.
#[derive(PartialEq, Eq, Structural, Clone, Copy, Debug)]
pub enum Cond {
    Eq,
    Ne,
    Lt,
    Le,
}

/// The role of a branch label; with its number it names one label.
#[derive(PartialEq, Eq, Structural, Clone, Copy, Debug, Hash)]
pub enum LabelKind {
    Begin,
    Else,
    End,
}

/// One instruction of the stack machine. `rax` is the accumulator, `rdi` the
/// secondary register, `rbp` the frame base.
#[derive(PartialEq, Eq, Structural, Clone, Copy, Debug)]
pub enum Instr {
    /// `mov $n, %rax`
    MovImm(i32),
    /// `lea off(%rbp), %rax`
    Lea(i32),
    /// `mov (%rax), %rax`
    Load,
    /// `mov %rax, (%rdi)`
    Store,
    /// `push %rax`
    Push,
    /// `pop %rdi`
    PopRdi,
    /// `neg %rax`
    Neg,
    /// `add %rdi, %rax`
    Add,
    /// `sub %rdi, %rax`
    Sub,
    /// `imul %rdi, %rax`
    Imul,
    /// `cqo` then `idiv %rdi`: signed 64-bit division
    Idiv,
    /// `cmp %rdi, %rax`, then the condition as 0 or 1 in `rax`
    Compare(Cond),
    /// `cmp $0, %rax`
    CmpZero,
    /// `je` to a label
    Je(LabelKind, u64),
    /// `jmp` to a label
    Jmp(LabelKind, u64),
    /// `jmp` to the function's epilogue
    JmpReturn,
    /// A label
    Label(LabelKind, u64),
}

/// Why a syntax tree could not be turned into code.
#[derive(PartialEq, Eq, Structural, Clone, Copy, Debug)]
pub enum CodegenError {
    /// The left side of `=` is not a variable.
    NotAnLvalue,
    /// A node where the generator does not accept its kind: a defect of the
    /// tree's construction, not of the source.
    Internal,
    /// The branch-label numbers are used up.
    TooManyLabels,
}

pub type GResult = Result<Seq<Instr>, CodegenError>;

/// The generator's result for a statement: its code and the next free label number.
pub type SResult = Result<(Seq<Instr>, int), CodegenError>;

pub open spec fn binop_code(k: NodeKind) -> Seq<Instr> {
    match k {
        NodeKind::Add => seq![Instr::Add],
        NodeKind::Sub => seq![Instr::Sub],
        NodeKind::Mul => seq![Instr::Imul],
        NodeKind::Div => seq![Instr::Idiv],
        NodeKind::Eq => seq![Instr::Compare(Cond::Eq)],
        NodeKind::Ne => seq![Instr::Compare(Cond::Ne)],
        NodeKind::Lt => seq![Instr::Compare(Cond::Lt)],
        _ => seq![Instr::Compare(Cond::Le)],
    }
}

pub open spec fn is_arith_or_cmp(k: NodeKind) -> bool {
    k == NodeKind::Add || k == NodeKind::Sub || k == NodeKind::Mul || k == NodeKind::Div || k
        == NodeKind::Eq || k == NodeKind::Ne || k == NodeKind::Lt || k == NodeKind::Le
}

/// The code of an expression: it leaves the value in `rax`. A binary operator
/// evaluates its right operand, saves it, evaluates its left operand, and combines.
pub open spec fn gen_expr_spec(a: Ast) -> GResult
    decreases a,
{
    match a {
        Ast::Num(n) => Ok(seq![Instr::MovImm(n)]),
        Ast::Var(_, off) => Ok(seq![Instr::Lea(off), Instr::Load]),
        Ast::Unary(k, e) => if k == NodeKind::Neg {
            match gen_expr_spec(*e) {
                Ok(c) => Ok(c + seq![Instr::Neg]),
                Err(x) => Err(x),
            }
        } else {
            Err(CodegenError::Internal)
        },
        Ast::Binary(k, l, r) => if k == NodeKind::Assign {
            match *l {
                Ast::Var(_, off) => match gen_expr_spec(*r) {
                    Ok(c) => Ok(seq![Instr::Lea(off), Instr::Push] + c + seq![
                        Instr::PopRdi,
                        Instr::Store,
                    ]),
                    Err(x) => Err(x),
                },
                _ => Err(CodegenError::NotAnLvalue),
            }
        } else if is_arith_or_cmp(k) {
            match gen_expr_spec(*r) {
                Ok(cr) => match gen_expr_spec(*l) {
                    Ok(cl) => Ok(cr + seq![Instr::Push] + cl + seq![Instr::PopRdi] + binop_code(k)),
                    Err(x) => Err(x),
                },
                Err(x) => Err(x),
            }
        } else {
            Err(CodegenError::Internal)
        },
        _ => Err(CodegenError::Internal),
    }
}

/// The code of a statement, whose `If` and `For` nodes take the label numbers
/// from `l` on, in the order the statements come.
pub open spec fn gen_stmt_spec(a: Ast, l: int) -> SResult
    decreases a,
{
    match a {
        Ast::Unary(k, e) => if k == NodeKind::ExprStmt || k == NodeKind::Return {
            match gen_expr_spec(*e) {
                Ok(c) => Ok(
                    (if k == NodeKind::Return { c + seq![Instr::JmpReturn] } else { c }, l),
                ),
                Err(x) => Err(x),
            }
        } else {
            Err(CodegenError::Internal)
        },
        Ast::Block(ss) => gen_block_spec(ss, l),
        Ast::If(c, t, e) => if l >= u64::MAX {
            Err(CodegenError::TooManyLabels)
        } else {
            match gen_expr_spec(*c) {
                Ok(cc) => match gen_stmt_spec(*t, l + 1) {
                    Ok((ct, l2)) => match gen_opt_stmt_spec(e, l2) {
                        Ok((ce, l3)) => Ok(
                            (
                                cc + seq![Instr::CmpZero, Instr::Je(LabelKind::Else, l as u64)]
                                    + ct + seq![
                                    Instr::Jmp(LabelKind::End, l as u64),
                                    Instr::Label(LabelKind::Else, l as u64),
                                ] + ce + seq![Instr::Label(LabelKind::End, l as u64)],
                                l3,
                            ),
                        ),
                        Err(x) => Err(x),
                    },
                    Err(x) => Err(x),
                },
                Err(x) => Err(x),
            }
        },
        Ast::For(i, c, n, b) => if l >= u64::MAX {
            Err(CodegenError::TooManyLabels)
        } else {
            match gen_opt_stmt_spec(i, l + 1) {
                Ok((ci, l2)) => match gen_opt_cond_spec(c, l) {
                    Ok(cc) => match gen_stmt_spec(*b, l2) {
                        Ok((cb, l3)) => match gen_opt_expr_spec(n) {
                            Ok(cn) => Ok(
                                (
                                    ci + seq![Instr::Label(LabelKind::Begin, l as u64)] + cc + cb
                                        + cn + seq![
                                        Instr::Jmp(LabelKind::Begin, l as u64),
                                        Instr::Label(LabelKind::End, l as u64),
                                    ],
                                    l3,
                                ),
                            ),
                            Err(x) => Err(x),
                        },
                        Err(x) => Err(x),
                    },
                    Err(x) => Err(x),
                },
                Err(x) => Err(x),
            }
        },
        _ => Err(CodegenError::Internal),
    }
}

/// An optional statement: no code where it is absent.
pub open spec fn gen_opt_stmt_spec(a: Option<Box<Ast>>, l: int) -> SResult
    decreases a,
{
    match a {
        Some(s) => gen_stmt_spec(*s, l),
        None => Ok((Seq::empty(), l)),
    }
}

/// An optional expression: no code where it is absent.
pub open spec fn gen_opt_expr_spec(a: Option<Box<Ast>>) -> GResult {
    match a {
        Some(e) => gen_expr_spec(*e),
        None => Ok(Seq::empty()),
    }
}

/// A loop condition: where present, it leaves the loop through its end label when zero.
pub open spec fn gen_opt_cond_spec(a: Option<Box<Ast>>, l: int) -> GResult {
    match a {
        Some(e) => match gen_expr_spec(*e) {
            Ok(c) => Ok(c + seq![Instr::CmpZero, Instr::Je(LabelKind::End, l as u64)]),
            Err(x) => Err(x),
        },
        None => Ok(Seq::empty()),
    }
}

/// The statements of a block, one after another.
pub open spec fn gen_block_spec(ss: Seq<Ast>, l: int) -> SResult
    decreases ss,
{
    if ss.len() == 0 {
        Ok((Seq::empty(), l))
    } else {
        match gen_stmt_spec(ss[0], l) {
            Ok((c, l2)) => match gen_block_spec(ss.drop_first(), l2) {
                Ok((c2, l3)) => Ok((c + c2, l3)),
                Err(x) => Err(x),
            },
            Err(x) => Err(x),
        }
    }
}

/// The generator's state: the code so far and the next free label number.
pub struct Codegen {
    pub code: Vec<Instr>,
    pub label: u64,
}

impl Codegen {
    /// An empty generator whose labels start at 1.
    pub fn new() -> (r: Codegen)
        ensures
            r.code@ == Seq::<Instr>::empty(),
            r.label == 1,
    {
        Codegen { code: Vec::new(), label: 1 }
    }

    fn emit(&mut self, i: Instr)
        ensures
            final(self).code@ == old(self).code@.push(i),
            final(self).label == old(self).label,
    {
        self.code.push(i);
    }

    /// The address of a variable node, into `rax`.
    pub fn gen_addr(&mut self, node: &Node) -> (r: Result<(), CodegenError>)
        ensures
            match node.view() {
                Ast::Var(_, off) => r is Ok && final(self).code@ == old(self).code@.push(
                    Instr::Lea(off),
                ),
                _ => r == Err::<(), CodegenError>(CodegenError::NotAnLvalue),
            },
            final(self).label == old(self).label,
    {
        if node.kind == NodeKind::Var {
            match &node.var {
                Some(o) => {
                    self.emit(Instr::Lea(o.offset));
                    Ok(())
                },
                None => Err(CodegenError::NotAnLvalue),
            }
        } else {
            Err(CodegenError::NotAnLvalue)
        }
    }

    /// Appends the code of an expression.
    pub fn gen_expr(&mut self, node: &Node) -> (r: Result<(), CodegenError>)
        ensures
            match gen_expr_spec(node.view()) {
                Ok(c) => r is Ok && final(self).code@ == old(self).code@ + c,
                Err(e) => r == Err::<(), CodegenError>(e),
            },
            final(self).label == old(self).label,
        decreases node, 1int,
    {
        let ghost before = self.code@;
        assert(gen_expr_spec(Ast::Block(Seq::empty())) == Err::<Seq<Instr>, CodegenError>(
            CodegenError::Internal,
        ));
        match node.kind {
            NodeKind::Num => {
                let v = match node.num {
                    Some(v) => v,
                    None => 0,
                };
                self.emit(Instr::MovImm(v));
                assert(self.code@ =~= before + seq![Instr::MovImm(v)]);
                Ok(())
            },
            NodeKind::Var => {
                match self.gen_addr(node) {
                    Ok(()) => {},
                    Err(_) => return Err(CodegenError::Internal),
                }
                self.emit(Instr::Load);
                assert(self.code@ =~= before + seq![Instr::Lea(node.var.unwrap().offset), Instr::Load]);
                Ok(())
            },
            NodeKind::Neg => match &node.lhs {
                Some(l) => {
                    match self.gen_expr(l) {
                        Ok(()) => {},
                        Err(e) => return Err(e),
                    }
                    let ghost mid = self.code@;
                    self.emit(Instr::Neg);
                    assert(self.code@ =~= before + (mid.subrange(before.len() as int, mid.len() as int) + seq![Instr::Neg]));
                    Ok(())
                },
                None => Err(CodegenError::Internal),
            },
            NodeKind::Assign => self.gen_assign(node),
            NodeKind::Add | NodeKind::Sub | NodeKind::Mul | NodeKind::Div | NodeKind::Eq
            | NodeKind::Ne | NodeKind::Lt | NodeKind::Le => self.gen_binary(node),
            _ => Err(CodegenError::Internal),
        }
    }

    /// The code of an assignment: the target's address, saved; the value; the store.
    fn gen_assign(&mut self, node: &Node) -> (r: Result<(), CodegenError>)
        requires
            node.kind == NodeKind::Assign,
        ensures
            match gen_expr_spec(node.view()) {
                Ok(c) => r is Ok && final(self).code@ == old(self).code@ + c,
                Err(e) => r == Err::<(), CodegenError>(e),
            },
            final(self).label == old(self).label,
        decreases node, 0int,
    {
        let ghost before = self.code@;
        assert(gen_expr_spec(Ast::Block(Seq::empty())) == Err::<Seq<Instr>, CodegenError>(
            CodegenError::Internal,
        ));
        let l = match &node.lhs {
            Some(l) => l,
            None => return Err(CodegenError::NotAnLvalue),
        };
        match self.gen_addr(l) {
            Ok(()) => {},
            Err(e) => return Err(e),
        }
        self.emit(Instr::Push);
        let ghost mid = self.code@;
        match &node.rhs {
            Some(r) => match self.gen_expr(r) {
                Ok(()) => {},
                Err(e) => return Err(e),
            },
            None => return Err(CodegenError::Internal),
        }
        let ghost after = self.code@;
        self.emit(Instr::PopRdi);
        self.emit(Instr::Store);
        assert(self.code@ =~= before + (seq![Instr::Lea(l.var.unwrap().offset), Instr::Push]
            + after.subrange(mid.len() as int, after.len() as int) + seq![
            Instr::PopRdi,
            Instr::Store,
        ]));
        Ok(())
    }

    /// The code of an arithmetic operator or a comparison.
    #[verifier::rlimit(100)]
    fn gen_binary(&mut self, node: &Node) -> (r: Result<(), CodegenError>)
        requires
            is_arith_or_cmp(node.kind),
        ensures
            match gen_expr_spec(node.view()) {
                Ok(c) => r is Ok && final(self).code@ == old(self).code@ + c,
                Err(e) => r == Err::<(), CodegenError>(e),
            },
            final(self).label == old(self).label,
        decreases node, 0int,
    {
        let ghost before = self.code@;
        assert(gen_expr_spec(Ast::Block(Seq::empty())) == Err::<Seq<Instr>, CodegenError>(
            CodegenError::Internal,
        ));
        match &node.rhs {
            Some(r) => match self.gen_expr(r) {
                Ok(()) => {},
                Err(e) => return Err(e),
            },
            None => return Err(CodegenError::Internal),
        }
        let ghost a1 = self.code@;
        self.emit(Instr::Push);
        match &node.lhs {
            Some(l) => match self.gen_expr(l) {
                Ok(()) => {},
                Err(e) => return Err(e),
            },
            None => return Err(CodegenError::Internal),
        }
        let ghost a2 = self.code@;
        self.emit(Instr::PopRdi);
        let op = match node.kind {
            NodeKind::Add => Instr::Add,
            NodeKind::Sub => Instr::Sub,
            NodeKind::Mul => Instr::Imul,
            NodeKind::Div => Instr::Idiv,
            NodeKind::Eq => Instr::Compare(Cond::Eq),
            NodeKind::Ne => Instr::Compare(Cond::Ne),
            NodeKind::Lt => Instr::Compare(Cond::Lt),
            _ => Instr::Compare(Cond::Le),
        };
        self.emit(op);
        assert(self.code@ =~= before + (a1.subrange(before.len() as int, a1.len() as int)
            + seq![Instr::Push] + a2.subrange(a1.len() as int + 1, a2.len() as int) + seq![
            Instr::PopRdi,
        ] + binop_code(node.kind)));
        Ok(())
        }

    /// Appends the code of a statement.
    #[verifier::rlimit(100)]
    pub fn gen_stmt(&mut self, node: &Node) -> (r: Result<(), CodegenError>)
        ensures
            match gen_stmt_spec(node.view(), old(self).label as int) {
                Ok((c, l)) => r is Ok && final(self).code@ == old(self).code@ + c
                    && final(self).label == l,
                Err(e) => r == Err::<(), CodegenError>(e),
            },
        decreases node, 2int,
    {
        let ghost before = self.code@;
        proof {
            lemma_gen_missing(self.label as int);
        }
        match node.kind {
            NodeKind::ExprStmt | NodeKind::Return => self.gen_unary_stmt(node),
            NodeKind::Block => match &node.body {
                Some(b) => self.gen_chain(b),
                None => {
                    assert(self.code@ =~= before + Seq::<Instr>::empty());
                    Ok(())
                },
            },
            NodeKind::Empty => {
                assert(self.code@ =~= before + Seq::<Instr>::empty());
                Ok(())
            },
            NodeKind::If => self.gen_if(node),
            NodeKind::For => self.gen_for(node),
            _ => Err(CodegenError::Internal),
        }
    }

    /// The code of an expression statement or a `return`.
    fn gen_unary_stmt(&mut self, node: &Node) -> (r: Result<(), CodegenError>)
        requires
            node.kind == NodeKind::ExprStmt || node.kind == NodeKind::Return,
        ensures
            match gen_stmt_spec(node.view(), old(self).label as int) {
                Ok((c, l)) => r is Ok && final(self).code@ == old(self).code@ + c
                    && final(self).label == l,
                Err(e) => r == Err::<(), CodegenError>(e),
            },
    {
        let ghost before = self.code@;
        let ghost e = operand_view(node.lhs);
        assert(node.view() == Ast::Unary(node.kind, Box::new(e)));
        proof {
            lemma_gen_missing(self.label as int);
        }
        match &node.lhs {
            Some(e) => match self.gen_expr(e) {
                Ok(()) => {},
                Err(x) => return Err(x),
            },
            None => return Err(CodegenError::Internal),
        }
        if node.kind == NodeKind::Return {
            let ghost mid = self.code@;
            self.emit(Instr::JmpReturn);
            assert(self.code@ =~= before + (mid.subrange(before.len() as int, mid.len() as int) + seq![Instr::JmpReturn]));
        } else {
            assert(self.code@ =~= before + self.code@.subrange(before.len() as int, self.code@.len() as int));
        }
        Ok(())
    }

    /// The code of an `if` statement.
    #[verifier::rlimit(100)]
    fn gen_if(&mut self, node: &Node) -> (r: Result<(), CodegenError>)
        requires
            node.kind == NodeKind::If,
        ensures
            match gen_stmt_spec(node.view(), old(self).label as int) {
                Ok((c, l)) => r is Ok && final(self).code@ == old(self).code@ + c
                    && final(self).label == l,
                Err(e) => r == Err::<(), CodegenError>(e),
            },
        decreases node, 1int,
    {
        let ghost before = self.code@;
        proof {
            lemma_gen_missing(self.label as int + 1);
        }
        if self.label == u64::MAX {
            return Err(CodegenError::TooManyLabels);
        }
        let c = self.label;
        self.label = c + 1;
        match &node.cond {
            Some(e) => match self.gen_expr(e) {
                Ok(()) => {},
                Err(x) => return Err(x),
            },
            None => return Err(CodegenError::Internal),
        }
        let ghost a1 = self.code@;
        self.emit(Instr::CmpZero);
        self.emit(Instr::Je(LabelKind::Else, c));
        let ghost a2 = self.code@;
        match &node.then_stmt {
            Some(t) => match self.gen_stmt(t) {
                Ok(()) => {},
                Err(x) => return Err(x),
            },
            None => {},
        }
        let ghost a3 = self.code@;
        self.emit(Instr::Jmp(LabelKind::End, c));
        self.emit(Instr::Label(LabelKind::Else, c));
        let ghost a4 = self.code@;
        proof {
            assert(gen_opt_stmt_spec(opt_view(node.els), self.label as int) == match node.els {
                Some(e) => gen_stmt_spec(e.view(), self.label as int),
                None => Ok::<(Seq<Instr>, int), CodegenError>((Seq::empty(), self.label as int)),
            });
        }
        match &node.els {
            Some(e) => match self.gen_stmt(e) {
                Ok(()) => {},
                Err(x) => return Err(x),
            },
            None => {},
        }
        let ghost a5 = self.code@;
        self.emit(Instr::Label(LabelKind::End, c));
        assert(self.code@ =~= before + (a1.subrange(before.len() as int, a1.len() as int)
            + seq![Instr::CmpZero, Instr::Je(LabelKind::Else, c)]
            + a3.subrange(a2.len() as int, a3.len() as int)
            + seq![Instr::Jmp(LabelKind::End, c), Instr::Label(LabelKind::Else, c)]
            + a5.subrange(a4.len() as int, a5.len() as int)
            + seq![Instr::Label(LabelKind::End, c)]));
        Ok(())
    }

    /// The code of a `for` or `while` statement.
    #[verifier::rlimit(100)]
    fn gen_for(&mut self, node: &Node) -> (r: Result<(), CodegenError>)
        requires
            node.kind == NodeKind::For,
        ensures
            match gen_stmt_spec(node.view(), old(self).label as int) {
                Ok((c, l)) => r is Ok && final(self).code@ == old(self).code@ + c
                    && final(self).label == l,
                Err(e) => r == Err::<(), CodegenError>(e),
            },
        decreases node, 1int,
    {
        let ghost before = self.code@;
        let ghost b = operand_view(node.then_stmt);
        assert(node.view() == Ast::For(opt_view(node.init), opt_view(node.cond), opt_view(node.inc), Box::new(b)));
        if self.label == u64::MAX {
            return Err(CodegenError::TooManyLabels);
        }
        let c = self.label;
        self.label = c + 1;
        proof {
            lemma_gen_missing(self.label as int);
            assert(gen_opt_stmt_spec(opt_view(node.init), c + 1) == match node.init {
                Some(i) => gen_stmt_spec(i.view(), c + 1),
                None => Ok::<(Seq<Instr>, int), CodegenError>((Seq::empty(), c + 1)),
            });
        }
        match &node.init {
            Some(i) => match self.gen_stmt(i) {
                Ok(()) => {},
                Err(x) => return Err(x),
            },
            None => {},
        }
        let ghost a1 = self.code@;
        match self.gen_loop(node, c) {
            Ok(()) => {},
            Err(x) => return Err(x),
        }
        assert(self.code@ =~= before + (a1.subrange(before.len() as int, a1.len() as int)
            + self.code@.subrange(a1.len() as int, self.code@.len() as int)));
        Ok(())
    }

    /// The part of a loop's code from its begin label on.
    #[verifier::rlimit(100)]
    fn gen_loop(&mut self, node: &Node, c: u64) -> (r: Result<(), CodegenError>)
        requires
            node.kind == NodeKind::For,
        ensures
            match gen_opt_cond_spec(opt_view(node.cond), c as int) {
                Ok(cc) => match gen_stmt_spec(operand_view(node.then_stmt), old(self).label as int) {
                    Ok((cb, l3)) => match gen_opt_expr_spec(opt_view(node.inc)) {
                        Ok(cn) => r is Ok && final(self).code@ == old(self).code@ + (seq![
                            Instr::Label(LabelKind::Begin, c),
                        ] + cc + cb + cn + seq![
                            Instr::Jmp(LabelKind::Begin, c),
                            Instr::Label(LabelKind::End, c),
                        ]) && final(self).label == l3,
                        Err(e) => r == Err::<(), CodegenError>(e),
                    },
                    Err(e) => r == Err::<(), CodegenError>(e),
                },
                Err(e) => r == Err::<(), CodegenError>(e),
            },
        decreases node, 0int,
    {
        let ghost before = self.code@;
        proof {
            lemma_gen_missing(self.label as int);
        }
        self.emit(Instr::Label(LabelKind::Begin, c));
        let ghost a2 = self.code@;
        match &node.cond {
            Some(e) => {
                match self.gen_expr(e) {
                    Ok(()) => {},
                    Err(x) => return Err(x),
                }
                self.emit(Instr::CmpZero);
                self.emit(Instr::Je(LabelKind::End, c));
            },
            None => {},
        }
        let ghost a3 = self.code@;
        match &node.then_stmt {
            Some(t) => match self.gen_stmt(t) {
                Ok(()) => {},
                Err(x) => return Err(x),
            },
            None => {},
        }
        let ghost a4 = self.code@;
        match &node.inc {
            Some(e) => match self.gen_expr(e) {
                Ok(()) => {},
                Err(x) => return Err(x),
            },
            None => {},
        }
        let ghost a5 = self.code@;
        self.emit(Instr::Jmp(LabelKind::Begin, c));
        self.emit(Instr::Label(LabelKind::End, c));
        assert(self.code@ =~= before + (seq![Instr::Label(LabelKind::Begin, c)]
            + a3.subrange(a2.len() as int, a3.len() as int)
            + a4.subrange(a3.len() as int, a4.len() as int)
            + a5.subrange(a4.len() as int, a5.len() as int)
            + seq![Instr::Jmp(LabelKind::Begin, c), Instr::Label(LabelKind::End, c)]));
        Ok(())
    }

    /// The code of a statement and of those chained after it.
    fn gen_chain(&mut self, node: &Node) -> (r: Result<(), CodegenError>)
        ensures
            match gen_block_spec(node.chain(), old(self).label as int) {
                Ok((c, l)) => r is Ok && final(self).code@ == old(self).code@ + c
                    && final(self).label == l,
                Err(e) => r == Err::<(), CodegenError>(e),
            },
        decreases node, 3int,
    {
        let ghost before = self.code@;
        let ghost ss = node.chain();
        assert(ss[0] == node.view());
        assert(ss.drop_first() =~= crate::node::opt_chain(node.next));
        match self.gen_stmt(node) {
            Ok(()) => {},
            Err(x) => return Err(x),
        }
        let ghost a1 = self.code@;
        match &node.next {
            Some(n) => match self.gen_chain(n) {
                Ok(()) => {},
                Err(x) => return Err(x),
            },
            None => {
                assert(gen_block_spec(Seq::empty(), self.label as int) == Ok::<(Seq<Instr>, int), CodegenError>((Seq::empty(), self.label as int)));
            },
        }
        assert(self.code@ =~= before + (a1.subrange(before.len() as int, a1.len() as int)
            + self.code@.subrange(a1.len() as int, self.code@.len() as int)));
        Ok(())
    }
}

/// Facts of the generator on an absent operand, which the tree models as an empty block.
proof fn lemma_gen_missing(l: int)
    ensures
        gen_expr_spec(Ast::Block(Seq::empty())) == Err::<Seq<Instr>, CodegenError>(CodegenError::Internal),
        gen_stmt_spec(Ast::Block(Seq::empty()), l) == Ok::<(Seq<Instr>, int), CodegenError>((Seq::empty(), l)),
        gen_block_spec(Seq::empty(), l) == Ok::<(Seq<Instr>, int), CodegenError>((Seq::empty(), l)),
{
    assert(gen_block_spec(Seq::empty(), l) == Ok::<(Seq<Instr>, int), CodegenError>((Seq::empty(), l)));
}

/// The code of a function's body, with labels numbered from 1.
pub fn gen_program(prog: &Function) -> (r: Result<Vec<Instr>, CodegenError>)
    ensures
        match gen_stmt_spec(prog.body.view(), 1) {
            Ok((c, _)) => r matches Ok(v) && v@ == c,
            Err(e) => r matches Err(x) && x == e,
        },
{
    let mut g = Codegen::new();
    match g.gen_stmt(&prog.body) {
        Ok(()) => {
            assert(g.code@ =~= Seq::<Instr>::empty() + g.code@);
            Ok(g.code)
        },
        Err(e) => Err(e),
    }
}

} // verus!