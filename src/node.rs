//! The syntax tree: executable nodes and their mathematical model.
use vstd::prelude::*;

verus! {

/// The kind of a syntax-tree node.
#[derive(PartialEq, Eq, Structural, Clone, Copy, Debug)]
pub enum NodeKind {
    /// `+`
    Add,
    /// `-`
    Sub,
    /// `*`
    Mul,
    /// `/`
    Div,
    /// Unary `-`
    Neg,
    /// `==`
    Eq,
    /// `!=`
    Ne,
    /// `<`
    Lt,
    /// `<=`
    Le,
    /// `=`
    Assign,
    /// `return`
    Return,
    /// `if`
    If,
    /// `for` or `while`
    For,
    /// `{ ... }`
    Block,
    /// An expression statement
    ExprStmt,
    /// A variable
    Var,
    /// An integer literal
    Num,
    /// A node with no meaning of its own
    Empty,
}

/// A local variable: its name and its offset from the frame base.
#[derive(Debug)]
pub struct Obj {
    pub name: String,
    pub offset: i32,
}

/// One node of the syntax tree. Which fields are present depends on `kind`
/// (see `Node::wf`); statements of a block are chained through `next`.
#[derive(Debug)]
pub struct Node {
    pub kind: NodeKind,
    pub next: Option<Box<Node>>,
    pub lhs: Option<Box<Node>>,
    pub rhs: Option<Box<Node>>,
    pub cond: Option<Box<Node>>,
    pub then_stmt: Option<Box<Node>>,
    pub els: Option<Box<Node>>,
    pub init: Option<Box<Node>>,
    pub inc: Option<Box<Node>>,
    pub body: Option<Box<Node>>,
    pub var: Option<Obj>,
    pub num: Option<i32>,
}

/// A parsed function: its body (a block), its local variables and the size of its frame.
pub struct Function {
    pub body: Box<Node>,
    pub locals: Vec<Obj>,
    pub stack_size: i32,
}

/// The mathematical model of a syntax tree.
pub ghost enum Ast {
    /// An integer literal.
    Num(i32),
    /// A variable: its name and its frame offset.
    Var(Seq<char>, i32),
    /// `Neg`, `Return` or `ExprStmt` over one operand.
    Unary(NodeKind, Box<Ast>),
    /// An arithmetic, comparison or assignment operator over two operands.
    Binary(NodeKind, Box<Ast>, Box<Ast>),
    /// Condition, then-branch, optional else-branch.
    If(Box<Ast>, Box<Ast>, Option<Box<Ast>>),
    /// Optional initialiser, condition and increment, then the body.
    For(Option<Box<Ast>>, Option<Box<Ast>>, Option<Box<Ast>>, Box<Ast>),
    /// A sequence of statements.
    Block(Seq<Ast>),
}

pub open spec fn is_binary_kind(k: NodeKind) -> bool {
    k == NodeKind::Add || k == NodeKind::Sub || k == NodeKind::Mul || k == NodeKind::Div || k
        == NodeKind::Eq || k == NodeKind::Ne || k == NodeKind::Lt || k == NodeKind::Le || k
        == NodeKind::Assign
}

pub open spec fn is_unary_kind(k: NodeKind) -> bool {
    k == NodeKind::Neg || k == NodeKind::Return || k == NodeKind::ExprStmt
}

impl Node {
    /// The model of this node, without the statements chained after it.
    pub open spec fn view(&self) -> Ast
        decreases self, 0int,
    {
        let missing = Ast::Block(Seq::empty());
        match self.kind {
            NodeKind::Num => Ast::Num(
                match self.num {
                    Some(v) => v,
                    None => 0,
                },
            ),
            NodeKind::Var => match self.var {
                Some(o) => Ast::Var(o.name@, o.offset),
                None => Ast::Unary(NodeKind::Var, Box::new(missing)),
            },
            NodeKind::Neg | NodeKind::Return | NodeKind::ExprStmt => Ast::Unary(
                self.kind,
                Box::new(
                    match self.lhs {
                        Some(l) => l.view(),
                        None => missing,
                    },
                ),
            ),
            NodeKind::Add | NodeKind::Sub | NodeKind::Mul | NodeKind::Div | NodeKind::Eq
            | NodeKind::Ne | NodeKind::Lt | NodeKind::Le | NodeKind::Assign => Ast::Binary(
                self.kind,
                Box::new(
                    match self.lhs {
                        Some(l) => l.view(),
                        None => missing,
                    },
                ),
                Box::new(
                    match self.rhs {
                        Some(r) => r.view(),
                        None => missing,
                    },
                ),
            ),
            NodeKind::If => Ast::If(
                Box::new(
                    match self.cond {
                        Some(c) => c.view(),
                        None => missing,
                    },
                ),
                Box::new(
                    match self.then_stmt {
                        Some(t) => t.view(),
                        None => missing,
                    },
                ),
                match self.els {
                    Some(e) => Some(Box::new(e.view())),
                    None => None,
                },
            ),
            NodeKind::For => Ast::For(
                match self.init {
                    Some(i) => Some(Box::new(i.view())),
                    None => None,
                },
                match self.cond {
                    Some(c) => Some(Box::new(c.view())),
                    None => None,
                },
                match self.inc {
                    Some(n) => Some(Box::new(n.view())),
                    None => None,
                },
                Box::new(
                    match self.then_stmt {
                        Some(t) => t.view(),
                        None => missing,
                    },
                ),
            ),
            NodeKind::Block => Ast::Block(
                match self.body {
                    Some(b) => b.chain(),
                    None => Seq::empty(),
                },
            ),
            NodeKind::Empty => missing,
        }
    }

    /// The models of this node and of the statements chained after it.
    pub open spec fn chain(&self) -> Seq<Ast>
        decreases self, 1int,
    {
        match self.next {
            Some(n) => seq![self.view()] + n.chain(),
            None => seq![self.view()],
        }
    }
}

/// The model of an optional operand.
pub open spec fn opt_view(n: Option<Box<Node>>) -> Option<Box<Ast>> {
    match n {
        Some(b) => Some(Box::new(b.view())),
        None => None,
    }
}

/// The model of a required operand; an absent one reads as an empty block.
pub open spec fn operand_view(n: Option<Box<Node>>) -> Ast {
    match n {
        Some(b) => b.view(),
        None => Ast::Block(Seq::empty()),
    }
}

/// The models of a chain of statements.
pub open spec fn opt_chain(n: Option<Box<Node>>) -> Seq<Ast> {
    match n {
        Some(b) => b.chain(),
        None => Seq::empty(),
    }
}

impl Node {
    /// A node of `kind` with no operands.
    pub fn new(kind: NodeKind) -> (r: Box<Node>)
        ensures
            r.kind == kind,
            r.next.is_none() && r.lhs.is_none() && r.rhs.is_none() && r.cond.is_none(),
            r.then_stmt.is_none() && r.els.is_none() && r.init.is_none() && r.inc.is_none(),
            r.body.is_none() && r.var.is_none() && r.num.is_none(),
    {
        Box::new(
            Node {
                kind,
                next: None,
                lhs: None,
                rhs: None,
                cond: None,
                then_stmt: None,
                els: None,
                init: None,
                inc: None,
                body: None,
                var: None,
                num: None,
            },
        )
    }

    /// A node of `kind` over two operands.
    pub fn new_binary(kind: NodeKind, lhs: Box<Node>, rhs: Box<Node>) -> (r: Box<Node>)
        ensures
            r.kind == kind,
            r.lhs == Some(lhs),
            r.rhs == Some(rhs),
            r.next.is_none() && r.cond.is_none() && r.then_stmt.is_none() && r.els.is_none(),
            r.init.is_none() && r.inc.is_none() && r.body.is_none() && r.var.is_none(),
            r.num.is_none(),
            is_binary_kind(kind) ==> r.view() == Ast::Binary(
                kind,
                Box::new(lhs.view()),
                Box::new(rhs.view()),
            ),
    {
        Box::new(
            Node {
                kind,
                next: None,
                lhs: Some(lhs),
                rhs: Some(rhs),
                cond: None,
                then_stmt: None,
                els: None,
                init: None,
                inc: None,
                body: None,
                var: None,
                num: None,
            },
        )
    }

    /// An integer literal.
    pub fn new_num(val: i32) -> (r: Box<Node>)
        ensures
            r.kind == NodeKind::Num,
            r.num == Some(val),
            r.next.is_none() && r.lhs.is_none() && r.rhs.is_none() && r.cond.is_none(),
            r.then_stmt.is_none() && r.els.is_none() && r.init.is_none() && r.inc.is_none(),
            r.body.is_none() && r.var.is_none(),
            r.view() == Ast::Num(val),
    {
        Box::new(
            Node {
                kind: NodeKind::Num,
                next: None,
                lhs: None,
                rhs: None,
                cond: None,
                then_stmt: None,
                els: None,
                init: None,
                inc: None,
                body: None,
                var: None,
                num: Some(val),
            },
        )
    }

    /// A node of `kind` over one operand.
    pub fn new_unary(kind: NodeKind, expr: Box<Node>) -> (r: Box<Node>)
        ensures
            r.kind == kind,
            r.lhs == Some(expr),
            r.next.is_none() && r.rhs.is_none() && r.cond.is_none() && r.then_stmt.is_none(),
            r.els.is_none() && r.init.is_none() && r.inc.is_none() && r.body.is_none(),
            r.var.is_none() && r.num.is_none(),
            is_unary_kind(kind) ==> r.view() == Ast::Unary(kind, Box::new(expr.view())),
    {
        Box::new(
            Node {
                kind,
                next: None,
                lhs: Some(expr),
                rhs: None,
                cond: None,
                then_stmt: None,
                els: None,
                init: None,
                inc: None,
                body: None,
                var: None,
                num: None,
            },
        )
    }

    /// An `if` statement.
    pub fn new_if(cond: Box<Node>, then_stmt: Box<Node>, els: Option<Box<Node>>) -> (r: Box<Node>)
        ensures
            r.view() == Ast::If(
                Box::new(cond.view()),
                Box::new(then_stmt.view()),
                match els {
                    Some(e) => Some(Box::new(e.view())),
                    None => None,
                },
            ),
            r.next.is_none(),
    {
        Box::new(
            Node {
                kind: NodeKind::If,
                next: None,
                lhs: None,
                rhs: None,
                cond: Some(cond),
                then_stmt: Some(then_stmt),
                els,
                init: None,
                inc: None,
                body: None,
                var: None,
                num: None,
            },
        )
    }

    /// A `for` or `while` statement.
    pub fn new_for(
        init: Option<Box<Node>>,
        cond: Option<Box<Node>>,
        inc: Option<Box<Node>>,
        then_stmt: Box<Node>,
    ) -> (r: Box<Node>)
        ensures
            r.view() == Ast::For(
                match init {
                    Some(i) => Some(Box::new(i.view())),
                    None => None,
                },
                match cond {
                    Some(c) => Some(Box::new(c.view())),
                    None => None,
                },
                match inc {
                    Some(n) => Some(Box::new(n.view())),
                    None => None,
                },
                Box::new(then_stmt.view()),
            ),
            r.next.is_none(),
    {
        Box::new(
            Node {
                kind: NodeKind::For,
                next: None,
                lhs: None,
                rhs: None,
                cond,
                then_stmt: Some(then_stmt),
                els: None,
                init,
                inc,
                body: None,
                var: None,
                num: None,
            },
        )
    }

    /// A block of `stmts`, chained in their order.
    pub fn new_block(stmts: Vec<Box<Node>>) -> (r: Box<Node>)
        ensures
            r.view() == Ast::Block(stmts@.map_values(|n: Box<Node>| n.view())),
            r.next.is_none(),
    {
        let ghost all = stmts@.map_values(|n: Box<Node>| n.view());
        let ghost total = stmts.len() as int;
        let ghost orig = stmts@;
        let mut stmts = stmts;
        let mut head: Option<Box<Node>> = None;
        assert(all.subrange(total, total) =~= Seq::<Ast>::empty());
        assert(orig.subrange(0, total) =~= orig);
        while stmts.len() > 0
            invariant
                stmts@ == orig.subrange(0, stmts.len() as int),
                stmts.len() <= total,
                total == orig.len(),
                all == orig.map_values(|n: Box<Node>| n.view()),
                opt_chain(head) == all.subrange(stmts.len() as int, total),
            decreases stmts.len(),
        {
            let ghost k = stmts.len() - 1;
            let s = stmts.pop().unwrap();
            assert(s == orig[k]);
            let ghost sv = s.view();
            assert(sv == all[k]);
            let mut n = *s;
            n.next = head;
            assert(n.view() == sv);
            head = Some(Box::new(n));
            assert(opt_chain(head) =~= all.subrange(k, total));
        }
        assert(all.subrange(0, total) =~= all);
        Box::new(
            Node {
                kind: NodeKind::Block,
                next: None,
                lhs: None,
                rhs: None,
                cond: None,
                then_stmt: None,
                els: None,
                init: None,
                inc: None,
                body: head,
                var: None,
                num: None,
            },
        )
    }

    /// Takes the statement chained after this one.
    pub fn next(self) -> (r: Box<Node>)
        requires
            self.next.is_some(),
        ensures
            r == self.next.unwrap(),
            self.chain() == seq![self.view()] + r.chain(),
    {
        match self.next {
            Some(n) => n,
            None => unreached(),
        }
    }

    /// The statement chained after this one, to change in place.
    pub fn next_mut(&mut self) -> (r: &mut Box<Node>)
        requires
            old(self).next.is_some(),
        ensures
            *r == old(self).next.unwrap(),
            *final(self) == (Node { next: Some(*final(r)), ..*old(self) }),
    {
        match &mut self.next {
            Some(n) => n,
            None => unreached(),
        }
    }

    /// A reference to a variable.
    pub fn new_var(var: Obj) -> (r: Box<Node>)
        ensures
            r.kind == NodeKind::Var,
            r.var == Some(var),
            r.next.is_none() && r.lhs.is_none() && r.rhs.is_none() && r.cond.is_none(),
            r.then_stmt.is_none() && r.els.is_none() && r.init.is_none() && r.inc.is_none(),
            r.body.is_none() && r.num.is_none(),
            r.view() == Ast::Var(var.name@, var.offset),
    {
        Box::new(
            Node {
                kind: NodeKind::Var,
                next: None,
                lhs: None,
                rhs: None,
                cond: None,
                then_stmt: None,
                els: None,
                init: None,
                inc: None,
                body: None,
                var: Some(var),
                num: None,
            },
        )
    }
}

} // verus!
