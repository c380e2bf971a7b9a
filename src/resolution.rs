//! Laws of whole parses: every variable node carries the offset of its name's
//! slot in the function's symbol table, and every tree has a shape that the code
//! generator accepts.
use vstd::prelude::*;
use crate::node::{Ast, NodeKind};
use crate::codegen::{
    CodegenError, Instr, is_arith_or_cmp, gen_expr_spec, gen_stmt_spec, gen_block_spec,
    gen_opt_stmt_spec,
};
use crate::parse::{
    PResult, BResult, OResult, p_cond, p_opt_expr, p_expr_stmt, p_if_tail, p_for_tail,
    p_for_cond, p_for_inc, p_stmt, p_block, p_function, at, bx, declare,
    lemma_declare_keeps_slots, lemma_var_index, p_add, p_add_rest, p_assign, p_equality,
    p_eq_rest, p_expr, p_mul, p_mul_rest, p_primary, p_rel_rest, p_relational, p_unary,
    slot_offset, var_index,
};
use crate::token::TokenView;

verus! {

/// `v2` keeps the slot of every name of `v`.
pub open spec fn extends(v: Seq<Seq<char>>, v2: Seq<Seq<char>>) -> bool {
    forall|m: Seq<char>| var_index(v, m) >= 0 ==> #[trigger] var_index(v2, m) == var_index(v, m)
}

/// Every variable of `a` has a slot in `vars`, and carries that slot's offset.
pub open spec fn resolved(a: Ast, vars: Seq<Seq<char>>) -> bool
    decreases a,
{
    match a {
        Ast::Num(_) => true,
        Ast::Var(name, off) => var_index(vars, name) >= 0 && off == slot_offset(
            var_index(vars, name),
        ) as i32,
        Ast::Unary(_, e) => resolved(*e, vars),
        Ast::Binary(_, l, r) => resolved(*l, vars) && resolved(*r, vars),
        Ast::If(c, t, e) => resolved(*c, vars) && resolved(*t, vars) && (match e {
            Some(e) => resolved(*e, vars),
            None => true,
        }),
        Ast::For(i, c, n, b) => (match i {
            Some(i) => resolved(*i, vars),
            None => true,
        }) && (match c {
            Some(c) => resolved(*c, vars),
            None => true,
        }) && (match n {
            Some(n) => resolved(*n, vars),
            None => true,
        }) && resolved(*b, vars),
        Ast::Block(ss) => resolved_all(ss, vars),
    }
}

/// Every statement of `ss` is resolved in `vars`.
pub open spec fn resolved_all(ss: Seq<Ast>, vars: Seq<Seq<char>>) -> bool
    decreases ss,
{
    ss.len() == 0 || (resolved(ss[0], vars) && resolved_all(ss.drop_first(), vars))
}

/// An expression of the shapes that `gen_expr_spec` accepts.
pub open spec fn expr_shape(a: Ast) -> bool
    decreases a,
{
    match a {
        Ast::Num(_) => true,
        Ast::Var(_, _) => true,
        Ast::Unary(k, e) => k == NodeKind::Neg && expr_shape(*e),
        Ast::Binary(k, l, r) => (k == NodeKind::Assign || is_arith_or_cmp(k)) && expr_shape(*l)
            && expr_shape(*r),
        _ => false,
    }
}

pub open spec fn opt_expr_shape(a: Option<Box<Ast>>) -> bool {
    match a {
        Some(e) => expr_shape(*e),
        None => true,
    }
}

/// A statement of the shapes that `gen_stmt_spec` accepts.
pub open spec fn stmt_shape(a: Ast) -> bool
    decreases a, 1int,
{
    match a {
        Ast::Unary(k, e) => (k == NodeKind::Return || k == NodeKind::ExprStmt) && expr_shape(*e),
        Ast::Block(ss) => stmts_shape(ss),
        Ast::If(c, t, e) => expr_shape(*c) && stmt_shape(*t) && (match e {
            Some(x) => stmt_shape(*x),
            None => true,
        }),
        Ast::For(i, c, n, b) => (match i {
            Some(x) => stmt_shape(*x),
            None => true,
        }) && opt_expr_shape(c) && opt_expr_shape(n) && stmt_shape(*b),
        _ => false,
    }
}

pub open spec fn stmts_shape(ss: Seq<Ast>) -> bool
    decreases ss, 0int,
{
    ss.len() == 0 || (stmt_shape(ss[0]) && stmts_shape(ss.drop_first()))
}

pub open spec fn shape(a: Ast, stmt: bool) -> bool {
    if stmt {
        stmt_shape(a)
    } else {
        expr_shape(a)
    }
}

pub open spec fn step_ok(r: PResult, vars: Seq<Seq<char>>, stmt: bool) -> bool {
    r matches Ok((a, _, v2)) ==> extends(vars, v2) && resolved(a, v2) && shape(a, stmt)
}

proof fn lemma_extends_trans(a: Seq<Seq<char>>, b: Seq<Seq<char>>, c: Seq<Seq<char>>)
    requires
        extends(a, b),
        extends(b, c),
    ensures
        extends(a, c),
{
    assert forall|m: Seq<char>| var_index(a, m) >= 0 implies #[trigger] var_index(c, m) == var_index(a, m) by {
        assert(var_index(b, m) == var_index(a, m));
    }
}

proof fn lemma_extends_refl(a: Seq<Seq<char>>)
    ensures
        extends(a, a),
{
}

proof fn lemma_declare_extends(vars: Seq<Seq<char>>, n: Seq<char>)
    ensures
        extends(vars, declare(vars, n)),
        var_index(declare(vars, n), n) >= 0,
{
    assert forall|m: Seq<char>| var_index(vars, m) >= 0 implies #[trigger] var_index(declare(vars, n), m) == var_index(vars, m) by {
        lemma_declare_keeps_slots(vars, n, m);
    }
    lemma_var_index(vars, n);
    if var_index(vars, n) < 0 {
        assert(vars.push(n).last() == n);
    }
}

proof fn lemma_resolved_mono(a: Ast, v: Seq<Seq<char>>, v2: Seq<Seq<char>>)
    requires
        resolved(a, v),
        extends(v, v2),
    ensures
        resolved(a, v2),
    decreases a,
{
    match a {
        Ast::Num(_) => {},
        Ast::Var(name, off) => {
            assert(var_index(v2, name) == var_index(v, name));
        },
        Ast::Unary(_, e) => lemma_resolved_mono(*e, v, v2),
        Ast::Binary(_, l, r) => {
            lemma_resolved_mono(*l, v, v2);
            lemma_resolved_mono(*r, v, v2);
        },
        Ast::If(c, t, e) => {
            lemma_resolved_mono(*c, v, v2);
            lemma_resolved_mono(*t, v, v2);
            match e {
                Some(e) => lemma_resolved_mono(*e, v, v2),
                None => {},
            }
        },
        Ast::For(i, c, n, b) => {
            match i {
                Some(x) => lemma_resolved_mono(*x, v, v2),
                None => {},
            }
            match c {
                Some(x) => lemma_resolved_mono(*x, v, v2),
                None => {},
            }
            match n {
                Some(x) => lemma_resolved_mono(*x, v, v2),
                None => {},
            }
            lemma_resolved_mono(*b, v, v2);
        },
        Ast::Block(ss) => lemma_resolved_all_mono(ss, v, v2),
    }
}

proof fn lemma_resolved_all_mono(ss: Seq<Ast>, v: Seq<Seq<char>>, v2: Seq<Seq<char>>)
    requires
        resolved_all(ss, v),
        extends(v, v2),
    ensures
        resolved_all(ss, v2),
    decreases ss,
{
    if ss.len() > 0 {
        lemma_resolved_mono(ss[0], v, v2);
        lemma_resolved_all_mono(ss.drop_first(), v, v2);
    }
}

/// After a step that extends the table, a step on its result, and a node that
/// combines the two results.
proof fn lemma_chain(
    vars: Seq<Seq<char>>,
    a: Ast,
    v: Seq<Seq<char>>,
    b: Ast,
    v2: Seq<Seq<char>>,
)
    requires
        extends(vars, v),
        resolved(a, v),
        extends(v, v2),
        resolved(b, v2),
    ensures
        extends(vars, v2),
        resolved(a, v2),
{
    lemma_extends_trans(vars, v, v2);
    lemma_resolved_mono(a, v, v2);
}

proof fn lemma_primary(ts: Seq<TokenView>, vars: Seq<Seq<char>>)
    ensures
        step_ok(p_primary(ts, vars), vars, false),
    decreases ts.len(), 0int,
{
    if ts.len() == 0 {
    } else if at(ts, "("@) {
        lemma_expr(ts.drop_first(), vars);
    } else if ts[0].kind == crate::token::TokenKind::Ident && ts[0].text.is_some() {
        lemma_declare_extends(vars, ts[0].text.unwrap());
    } else {
        lemma_extends_refl(vars);
    }
}

proof fn lemma_unary(ts: Seq<TokenView>, vars: Seq<Seq<char>>)
    ensures
        step_ok(p_unary(ts, vars), vars, false),
    decreases ts.len(), 1int,
{
    if ts.len() > 0 && at(ts, "+"@) {
        lemma_unary(ts.drop_first(), vars);
    } else if ts.len() > 0 && at(ts, "-"@) {
        lemma_unary(ts.drop_first(), vars);
    } else {
        lemma_primary(ts, vars);
    }
}

proof fn lemma_mul_rest(lhs: Ast, ts: Seq<TokenView>, vars: Seq<Seq<char>>)
    requires
        resolved(lhs, vars),
        expr_shape(lhs),
    ensures
        step_ok(p_mul_rest(lhs, ts, vars), vars, false),
    decreases ts.len(), 2int,
{
    if ts.len() > 0 && (at(ts, "*"@) || at(ts, "/"@)) {
        let k = if at(ts, "*"@) { NodeKind::Mul } else { NodeKind::Div };
        lemma_unary(ts.drop_first(), vars);
        match p_unary(ts.drop_first(), vars) {
            Ok((n, r, v)) => if r.len() < ts.len() {
                lemma_resolved_mono(lhs, vars, v);
                lemma_mul_rest(Ast::Binary(k, bx(lhs), bx(n)), r, v);
                match p_mul_rest(Ast::Binary(k, bx(lhs), bx(n)), r, v) {
                    Ok((a, _, v2)) => lemma_extends_trans(vars, v, v2),
                    Err(_) => {},
                }
            },
            Err(_) => {},
        }
    } else {
        lemma_extends_refl(vars);
    }
}

proof fn lemma_mul(ts: Seq<TokenView>, vars: Seq<Seq<char>>)
    ensures
        step_ok(p_mul(ts, vars), vars, false),
    decreases ts.len(), 3int,
{
    lemma_unary(ts, vars);
    match p_unary(ts, vars) {
        Ok((n, r, v)) => if r.len() <= ts.len() {
            lemma_mul_rest(n, r, v);
            match p_mul_rest(n, r, v) {
                Ok((a, _, v2)) => lemma_extends_trans(vars, v, v2),
                Err(_) => {},
            }
        },
        Err(_) => {},
    }
}

proof fn lemma_add_rest(lhs: Ast, ts: Seq<TokenView>, vars: Seq<Seq<char>>)
    requires
        resolved(lhs, vars),
        expr_shape(lhs),
    ensures
        step_ok(p_add_rest(lhs, ts, vars), vars, false),
    decreases ts.len(), 4int,
{
    if ts.len() > 0 && (at(ts, "+"@) || at(ts, "-"@)) {
        let k = if at(ts, "+"@) { NodeKind::Add } else { NodeKind::Sub };
        lemma_mul(ts.drop_first(), vars);
        match p_mul(ts.drop_first(), vars) {
            Ok((n, r, v)) => if r.len() < ts.len() {
                lemma_resolved_mono(lhs, vars, v);
                lemma_add_rest(Ast::Binary(k, bx(lhs), bx(n)), r, v);
                match p_add_rest(Ast::Binary(k, bx(lhs), bx(n)), r, v) {
                    Ok((a, _, v2)) => lemma_extends_trans(vars, v, v2),
                    Err(_) => {},
                }
            },
            Err(_) => {},
        }
    } else {
        lemma_extends_refl(vars);
    }
}

proof fn lemma_add(ts: Seq<TokenView>, vars: Seq<Seq<char>>)
    ensures
        step_ok(p_add(ts, vars), vars, false),
    decreases ts.len(), 5int,
{
    lemma_mul(ts, vars);
    match p_mul(ts, vars) {
        Ok((n, r, v)) => if r.len() <= ts.len() {
            lemma_add_rest(n, r, v);
            match p_add_rest(n, r, v) {
                Ok((a, _, v2)) => lemma_extends_trans(vars, v, v2),
                Err(_) => {},
            }
        },
        Err(_) => {},
    }
}

proof fn lemma_rel_rest(lhs: Ast, ts: Seq<TokenView>, vars: Seq<Seq<char>>)
    requires
        resolved(lhs, vars),
        expr_shape(lhs),
    ensures
        step_ok(p_rel_rest(lhs, ts, vars), vars, false),
    decreases ts.len(), 6int,
{
    if ts.len() > 0 && (at(ts, "<"@) || at(ts, "<="@)) {
        let k = if at(ts, "<"@) { NodeKind::Lt } else { NodeKind::Le };
        lemma_add(ts.drop_first(), vars);
        match p_add(ts.drop_first(), vars) {
            Ok((n, r, v)) => if r.len() < ts.len() {
                lemma_resolved_mono(lhs, vars, v);
                lemma_rel_rest(Ast::Binary(k, bx(lhs), bx(n)), r, v);
                match p_rel_rest(Ast::Binary(k, bx(lhs), bx(n)), r, v) {
                    Ok((a, _, v2)) => lemma_extends_trans(vars, v, v2),
                    Err(_) => {},
                }
            },
            Err(_) => {},
        }
    } else if ts.len() > 0 && (at(ts, ">"@) || at(ts, ">="@)) {
        let k = if at(ts, ">"@) { NodeKind::Lt } else { NodeKind::Le };
        lemma_equality(ts.drop_first(), vars);
        match p_equality(ts.drop_first(), vars) {
            Ok((n, r, v)) => if r.len() < ts.len() {
                lemma_resolved_mono(lhs, vars, v);
                lemma_rel_rest(Ast::Binary(k, bx(n), bx(lhs)), r, v);
                match p_rel_rest(Ast::Binary(k, bx(n), bx(lhs)), r, v) {
                    Ok((a, _, v2)) => lemma_extends_trans(vars, v, v2),
                    Err(_) => {},
                }
            },
            Err(_) => {},
        }
    } else {
        lemma_extends_refl(vars);
    }
}

#[verifier::rlimit(100)]
proof fn lemma_relational(ts: Seq<TokenView>, vars: Seq<Seq<char>>)
    ensures
        step_ok(p_relational(ts, vars), vars, false),
    decreases ts.len(), 7int,
{
    lemma_add(ts, vars);
    match p_add(ts, vars) {
        Ok((n, r, v)) => if r.len() <= ts.len() {
            lemma_rel_rest(n, r, v);
            match p_rel_rest(n, r, v) {
                Ok((a, _, v2)) => lemma_extends_trans(vars, v, v2),
                Err(_) => {},
            }
        },
        Err(_) => {},
    }
}

proof fn lemma_eq_rest(lhs: Ast, ts: Seq<TokenView>, vars: Seq<Seq<char>>)
    requires
        resolved(lhs, vars),
        expr_shape(lhs),
    ensures
        step_ok(p_eq_rest(lhs, ts, vars), vars, false),
    decreases ts.len(), 8int,
{
    if ts.len() > 0 && (at(ts, "=="@) || at(ts, "!="@)) {
        let k = if at(ts, "=="@) { NodeKind::Eq } else { NodeKind::Ne };
        lemma_relational(ts.drop_first(), vars);
        match p_relational(ts.drop_first(), vars) {
            Ok((n, r, v)) => if r.len() < ts.len() {
                lemma_resolved_mono(lhs, vars, v);
                lemma_eq_rest(Ast::Binary(k, bx(lhs), bx(n)), r, v);
                match p_eq_rest(Ast::Binary(k, bx(lhs), bx(n)), r, v) {
                    Ok((a, _, v2)) => lemma_extends_trans(vars, v, v2),
                    Err(_) => {},
                }
            },
            Err(_) => {},
        }
    } else {
        lemma_extends_refl(vars);
    }
}

proof fn lemma_equality(ts: Seq<TokenView>, vars: Seq<Seq<char>>)
    ensures
        step_ok(p_equality(ts, vars), vars, false),
    decreases ts.len(), 9int,
{
    lemma_relational(ts, vars);
    match p_relational(ts, vars) {
        Ok((n, r, v)) => if r.len() <= ts.len() {
            lemma_eq_rest(n, r, v);
            match p_eq_rest(n, r, v) {
                Ok((a, _, v2)) => lemma_extends_trans(vars, v, v2),
                Err(_) => {},
            }
        },
        Err(_) => {},
    }
}

proof fn lemma_assign(ts: Seq<TokenView>, vars: Seq<Seq<char>>)
    ensures
        step_ok(p_assign(ts, vars), vars, false),
    decreases ts.len(), 10int,
{
    lemma_equality(ts, vars);
    match p_equality(ts, vars) {
        Ok((n, r, v)) => if at(r, "="@) && r.len() <= ts.len() {
            lemma_assign(r.drop_first(), v);
            match p_assign(r.drop_first(), v) {
                Ok((m, _, v2)) => lemma_chain(vars, n, v, m, v2),
                Err(_) => {},
            }
        },
        Err(_) => {},
    }
}

proof fn lemma_expr(ts: Seq<TokenView>, vars: Seq<Seq<char>>)
    ensures
        step_ok(p_expr(ts, vars), vars, false),
    decreases ts.len(), 11int,
{
    lemma_assign(ts, vars);
}

pub open spec fn opt_resolved(a: Option<Box<Ast>>, vars: Seq<Seq<char>>) -> bool {
    match a {
        Some(e) => resolved(*e, vars),
        None => true,
    }
}

pub open spec fn opt_step_ok(r: OResult, vars: Seq<Seq<char>>) -> bool {
    r matches Ok((a, _, v2)) ==> extends(vars, v2) && opt_resolved(a, v2) && opt_expr_shape(a)
}

pub open spec fn block_step_ok(r: BResult, vars: Seq<Seq<char>>) -> bool {
    r matches Ok((ss, _, v2)) ==> extends(vars, v2) && resolved(Ast::Block(ss), v2) && stmts_shape(ss)
}

proof fn lemma_cond(ts: Seq<TokenView>, vars: Seq<Seq<char>>)
    ensures
        step_ok(p_cond(ts, vars), vars, false),
    decreases ts.len(), 12int,
{
    if at(ts, "("@) {
        lemma_expr(ts.drop_first(), vars);
    }
}

proof fn lemma_opt_expr(ts: Seq<TokenView>, vars: Seq<Seq<char>>, c: char)
    ensures
        opt_step_ok(p_opt_expr(ts, vars, c), vars),
    decreases ts.len(), 12int,
{
    if at(ts, seq![c]) {
        lemma_extends_refl(vars);
    } else {
        lemma_expr(ts, vars);
    }
}

proof fn lemma_expr_stmt(ts: Seq<TokenView>, vars: Seq<Seq<char>>)
    ensures
        step_ok(p_expr_stmt(ts, vars), vars, true),
    decreases ts.len(), 13int,
{
    if at(ts, ";"@) {
        lemma_extends_refl(vars);
        assert(resolved_all(Seq::empty(), vars));
        assert(resolved(Ast::Block(Seq::empty()), vars));
        assert(stmts_shape(Seq::empty()));
        assert(stmt_shape(Ast::Block(Seq::empty())));
    } else {
        lemma_expr(ts, vars);
    }
}

proof fn lemma_if_tail(c: Ast, ts: Seq<TokenView>, vars: Seq<Seq<char>>)
    requires
        resolved(c, vars),
        expr_shape(c),
    ensures
        step_ok(p_if_tail(c, ts, vars), vars, true),
    decreases ts.len(), 17int,
{
    lemma_stmt(ts, vars);
    match p_stmt(ts, vars) {
        Ok((t, r, v)) => {
            lemma_resolved_mono(c, vars, v);
            if at(r, "else"@) && r.len() <= ts.len() {
                lemma_stmt(r.drop_first(), v);
                match p_stmt(r.drop_first(), v) {
                    Ok((e, _, v2)) => {
                        lemma_chain(vars, t, v, e, v2);
                        lemma_resolved_mono(c, v, v2);
                    },
                    Err(_) => {},
                }
            }
        },
        Err(_) => {},
    }
}

proof fn lemma_for_inc(i: Ast, c: Option<Box<Ast>>, ts: Seq<TokenView>, vars: Seq<Seq<char>>)
    requires
        resolved(i, vars),
        opt_resolved(c, vars),
        stmt_shape(i),
        opt_expr_shape(c),
    ensures
        step_ok(p_for_inc(i, c, ts, vars), vars, true),
    decreases ts.len(), 17int,
{
    lemma_opt_expr(ts, vars, ')');
    match p_opt_expr(ts, vars, ')') {
        Ok((n, r, v)) => if r.len() <= ts.len() {
            lemma_stmt(r, v);
            match p_stmt(r, v) {
                Ok((b, _, v2)) => {
                    lemma_extends_trans(vars, v, v2);
                    lemma_resolved_mono(i, vars, v2);
                    match c {
                        Some(x) => lemma_resolved_mono(*x, vars, v2),
                        None => {},
                    }
                    match n {
                        Some(x) => lemma_resolved_mono(*x, v, v2),
                        None => {},
                    }
                },
                Err(_) => {},
            }
        },
        Err(_) => {},
    }
}

proof fn lemma_for_cond(i: Ast, ts: Seq<TokenView>, vars: Seq<Seq<char>>)
    requires
        resolved(i, vars),
        stmt_shape(i),
    ensures
        step_ok(p_for_cond(i, ts, vars), vars, true),
    decreases ts.len(), 18int,
{
    lemma_opt_expr(ts, vars, ';');
    match p_opt_expr(ts, vars, ';') {
        Ok((c, r, v)) => if r.len() <= ts.len() {
            lemma_resolved_mono(i, vars, v);
            lemma_for_inc(i, c, r, v);
            match p_for_inc(i, c, r, v) {
                Ok((_, _, v2)) => lemma_extends_trans(vars, v, v2),
                Err(_) => {},
            }
        },
        Err(_) => {},
    }
}

proof fn lemma_for_tail(ts: Seq<TokenView>, vars: Seq<Seq<char>>)
    ensures
        step_ok(p_for_tail(ts, vars), vars, true),
    decreases ts.len(), 19int,
{
    lemma_expr_stmt(ts, vars);
    match p_expr_stmt(ts, vars) {
        Ok((i, r, v)) => if r.len() <= ts.len() {
            lemma_for_cond(i, r, v);
            match p_for_cond(i, r, v) {
                Ok((_, _, v2)) => lemma_extends_trans(vars, v, v2),
                Err(_) => {},
            }
        },
        Err(_) => {},
    }
}

#[verifier::rlimit(100)]
proof fn lemma_stmt(ts: Seq<TokenView>, vars: Seq<Seq<char>>)
    ensures
        step_ok(p_stmt(ts, vars), vars, true),
    decreases ts.len(), 16int,
{
    if ts.len() == 0 {
    } else if at(ts, "return"@) {
        lemma_expr(ts.drop_first(), vars);
    } else if at(ts, "{"@) {
        lemma_block(ts.drop_first(), vars);
    } else if at(ts, "if"@) {
        lemma_cond(ts.drop_first(), vars);
        match p_cond(ts.drop_first(), vars) {
            Ok((c, r, v)) => if r.len() < ts.len() {
                lemma_if_tail(c, r, v);
                match p_if_tail(c, r, v) {
                    Ok((_, _, v2)) => lemma_extends_trans(vars, v, v2),
                    Err(_) => {},
                }
            },
            Err(_) => {},
        }
    } else if at(ts, "for"@) {
        let t1 = ts.drop_first();
        if at(t1, "("@) {
            lemma_for_tail(t1.drop_first(), vars);
        }
    } else if at(ts, "while"@) {
        lemma_cond(ts.drop_first(), vars);
        match p_cond(ts.drop_first(), vars) {
            Ok((c, r, v)) => if r.len() < ts.len() {
                lemma_stmt(r, v);
                match p_stmt(r, v) {
                    Ok((b, _, v2)) => lemma_chain(vars, c, v, b, v2),
                    Err(_) => {},
                }
            },
            Err(_) => {},
        }
    } else {
        lemma_expr_stmt(ts, vars);
    }
}

proof fn lemma_block(ts: Seq<TokenView>, vars: Seq<Seq<char>>)
    ensures
        block_step_ok(p_block(ts, vars), vars),
    decreases ts.len(), 20int,
{
    if at(ts, "}"@) {
        lemma_extends_refl(vars);
        assert(resolved_all(Seq::empty(), vars));
        assert(resolved(Ast::Block(Seq::empty()), vars));
        assert(stmts_shape(Seq::empty()));
        assert(stmt_shape(Ast::Block(Seq::empty())));
    } else {
        lemma_stmt(ts, vars);
        match p_stmt(ts, vars) {
            Ok((s, r, v)) => if r.len() < ts.len() {
                lemma_block(r, v);
                match p_block(r, v) {
                    Ok((b, _, v2)) => {
                        lemma_chain(vars, s, v, Ast::Block(b), v2);
                        let all = seq![s] + b;
                        assert(all[0] == s);
                        assert(all.drop_first() =~= b);
                        assert(resolved(Ast::Block(b), v2));
                        assert(resolved_all(b, v2));
                        assert(resolved_all(all, v2));
                        assert(resolved(Ast::Block(all), v2));
                        assert(stmt_shape(Ast::Block(b)));
                        assert(stmts_shape(b));
                        assert(stmts_shape(all));
                    },
                    Err(_) => {},
                }
            },
            Err(_) => {},
        }
    }
}

/// Variable identity over a whole function: every variable node of its body
/// carries the offset of its name's slot among the function's variables, so two
/// references to one name share an offset and references to two names do not.
/// Its statements also have the shapes that the code generator accepts.
pub proof fn lemma_parse_resolves_variables(ts: Seq<TokenView>)
    ensures
        p_function(ts) matches Ok((b, vars)) ==> resolved(Ast::Block(b), vars) && stmts_shape(b),
{
    if at(ts, "{"@) {
        lemma_block(ts.drop_first(), Seq::empty());
    }
}

proof fn lemma_expr_no_internal(e: Ast)
    requires
        expr_shape(e),
    ensures
        gen_expr_spec(e) != Err::<Seq<Instr>, CodegenError>(CodegenError::Internal),
    decreases e,
{
    match e {
        Ast::Unary(_, x) => lemma_expr_no_internal(*x),
        Ast::Binary(k, l, r) => {
            lemma_expr_no_internal(*l);
            lemma_expr_no_internal(*r);
        },
        _ => {},
    }
}

proof fn lemma_stmt_no_internal(a: Ast, l: int)
    requires
        stmt_shape(a),
    ensures
        gen_stmt_spec(a, l) != Err::<(Seq<Instr>, int), CodegenError>(CodegenError::Internal),
    decreases a, 1int,
{
    match a {
        Ast::Unary(_, e) => lemma_expr_no_internal(*e),
        Ast::Block(ss) => lemma_stmts_no_internal(ss, l),
        Ast::If(c, t, e) => {
            lemma_expr_no_internal(*c);
            lemma_stmt_no_internal(*t, l + 1);
            match gen_stmt_spec(*t, l + 1) {
                Ok((_, l2)) => {
                    match e {
                        Some(x) => lemma_stmt_no_internal(*x, l2),
                        None => {},
                    }
                    assert(gen_opt_stmt_spec(e, l2) == match e {
                        Some(x) => gen_stmt_spec(*x, l2),
                        None => Ok::<(Seq<Instr>, int), CodegenError>((Seq::empty(), l2)),
                    });
                },
                Err(_) => {},
            }
        },
        Ast::For(i, c, n, b) => {
            match i {
                Some(x) => lemma_stmt_no_internal(*x, l + 1),
                None => {},
            }
            match c {
                Some(x) => lemma_expr_no_internal(*x),
                None => {},
            }
            match n {
                Some(x) => lemma_expr_no_internal(*x),
                None => {},
            }
            assert(gen_opt_stmt_spec(i, l + 1) == match i {
                Some(x) => gen_stmt_spec(*x, l + 1),
                None => Ok::<(Seq<Instr>, int), CodegenError>((Seq::empty(), l + 1)),
            });
            match gen_opt_stmt_spec(i, l + 1) {
                Ok((_, l2)) => lemma_stmt_no_internal(*b, l2),
                Err(_) => {},
            }
        },
        _ => {},
    }
}

proof fn lemma_stmts_no_internal(ss: Seq<Ast>, l: int)
    requires
        stmts_shape(ss),
    ensures
        gen_block_spec(ss, l) != Err::<(Seq<Instr>, int), CodegenError>(CodegenError::Internal),
    decreases ss, 0int,
{
    if ss.len() > 0 {
        lemma_stmt_no_internal(ss[0], l);
        match gen_stmt_spec(ss[0], l) {
            Ok((_, l2)) => lemma_stmts_no_internal(ss.drop_first(), l2),
            Err(_) => {},
        }
    }
}

/// The code generator meets no malformed node in a parsed function: generating
/// its code fails only on a non-variable left of `=` or when label numbers run out.
pub proof fn lemma_parsed_function_has_no_internal_fault(ts: Seq<TokenView>, l: int)
    ensures
        p_function(ts) matches Ok((b, vars)) ==> gen_stmt_spec(Ast::Block(b), l) != Err::<
            (Seq<Instr>, int),
            CodegenError,
        >(CodegenError::Internal),
{
    lemma_parse_resolves_variables(ts);
    match p_function(ts) {
        Ok((b, vars)) => lemma_stmts_no_internal(b, l),
        Err(_) => {},
    }
}

} // verus!
