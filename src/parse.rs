//! The parser: a token sequence to a syntax tree, resolving variables as it goes.
use vstd::prelude::*;
use crate::token::{Token, TokenKind, TokenView, is_text, tokens_wf, lemma_seq_first, lemma_tokens_wf_drop};
use crate::node::{Ast, Node, NodeKind, Obj, Function, is_binary_kind, is_unary_kind};

verus! {

/// Why a token sequence does not match the grammar.
#[derive(PartialEq, Eq, Structural, Clone, Copy, Debug)]
pub enum ParseErrorKind {
    /// A token where an expression must start.
    ExpectedExpression,
    /// A token other than the punctuator that the grammar requires here.
    Expected(char),
}

/// A parse error at the character offset of the offending token.
#[derive(PartialEq, Eq, Structural, Clone, Copy, Debug)]
pub struct ParseError {
    pub location: usize,
    pub kind: ParseErrorKind,
}

/// What a parse step yields: a tree, the tokens left, and the variables known so far.
pub type PResult = Result<(Ast, Seq<TokenView>, Seq<Seq<char>>), ParseError>;

/// The position of `name` among the variables, or -1.
pub open spec fn var_index(vars: Seq<Seq<char>>, name: Seq<char>) -> int
    decreases vars.len(),
{
    if vars.len() == 0 {
        -1
    } else if vars.last() == name {
        vars.len() - 1
    } else {
        var_index(vars.drop_last(), name)
    }
}

pub proof fn lemma_var_index(vars: Seq<Seq<char>>, name: Seq<char>)
    ensures
        -1 <= var_index(vars, name) < vars.len(),
        var_index(vars, name) >= 0 ==> vars[var_index(vars, name)] == name,
        var_index(vars, name) < 0 ==> !vars.contains(name),
    decreases vars.len(),
{
    if vars.len() > 0 && vars.last() != name {
        lemma_var_index(vars.drop_last(), name);
        if var_index(vars, name) < 0 {
            assert forall|i: int| 0 <= i < vars.len() implies vars[i] != name by {
                if i < vars.len() - 1 {
                    assert(vars.drop_last()[i] == vars[i]);
                }
            }
        }
    }
}

/// Variable identity: of two resolved names, the offsets are equal exactly when
/// the names are.
pub proof fn lemma_variable_identity(vars: Seq<Seq<char>>, a: Seq<char>, b: Seq<char>)
    requires
        var_index(vars, a) >= 0,
        var_index(vars, b) >= 0,
    ensures
        (slot_offset(var_index(vars, a)) == slot_offset(var_index(vars, b))) <==> (a == b),
{
    lemma_var_index(vars, a);
    lemma_var_index(vars, b);
}

/// A resolved name keeps its offset when a later reference resolves any name.
pub proof fn lemma_declare_keeps_slots(vars: Seq<Seq<char>>, n: Seq<char>, m: Seq<char>)
    requires
        var_index(vars, m) >= 0,
    ensures
        var_index(declare(vars, n), m) == var_index(vars, m),
        var_index(declare(vars, n), n) >= 0,
{
    lemma_var_index(vars, m);
    lemma_var_index(vars, n);
    if var_index(vars, n) < 0 {
        assert(vars.push(n).drop_last() =~= vars);
        assert(vars.contains(m));
    }
}

/// The frame offset of the variable at position `i`.
pub open spec fn slot_offset(i: int) -> int {
    -8 * (i + 1)
}

/// The variables after a reference to `name`: a new one is appended.
pub open spec fn declare(vars: Seq<Seq<char>>, name: Seq<char>) -> Seq<Seq<char>> {
    if var_index(vars, name) >= 0 {
        vars
    } else {
        vars.push(name)
    }
}

pub open spec fn at(ts: Seq<TokenView>, p: Seq<char>) -> bool {
    ts.len() > 0 && is_text(ts[0], p)
}

pub open spec fn err_at(ts: Seq<TokenView>, kind: ParseErrorKind) -> ParseError {
    ParseError { location: if ts.len() > 0 { ts[0].location } else { 0 }, kind }
}

pub open spec fn bx(a: Ast) -> Box<Ast> {
    Box::new(a)
}

/// `primary = "(" expr ")" | ident | num`
pub open spec fn p_primary(ts: Seq<TokenView>, vars: Seq<Seq<char>>) -> PResult
    decreases ts.len(), 0int,
{
    if ts.len() == 0 {
        Err(err_at(ts, ParseErrorKind::ExpectedExpression))
    } else if at(ts, "("@) {
        match p_expr(ts.drop_first(), vars) {
            Ok((n, r, v)) => if at(r, ")"@) {
                Ok((n, r.drop_first(), v))
            } else {
                Err(err_at(r, ParseErrorKind::Expected(')')))
            },
            Err(e) => Err(e),
        }
    } else if ts[0].kind == TokenKind::Ident && ts[0].text.is_some() {
        let name = ts[0].text.unwrap();
        let v = declare(vars, name);
        Ok((Ast::Var(name, slot_offset(var_index(v, name)) as i32), ts.drop_first(), v))
    } else if ts[0].kind == TokenKind::Num && ts[0].num.is_some() {
        Ok((Ast::Num(ts[0].num.unwrap()), ts.drop_first(), vars))
    } else {
        Err(err_at(ts, ParseErrorKind::ExpectedExpression))
    }
}

/// `unary = ("+" | "-") unary | primary`
pub open spec fn p_unary(ts: Seq<TokenView>, vars: Seq<Seq<char>>) -> PResult
    decreases ts.len(), 1int,
{
    if ts.len() > 0 && at(ts, "+"@) {
        p_unary(ts.drop_first(), vars)
    } else if ts.len() > 0 && at(ts, "-"@) {
        match p_unary(ts.drop_first(), vars) {
            Ok((n, r, v)) => Ok((Ast::Unary(NodeKind::Neg, bx(n)), r, v)),
            Err(e) => Err(e),
        }
    } else {
        p_primary(ts, vars)
    }
}

/// The operators after the first operand of `mul = unary ("*" unary | "/" unary)*`.
pub open spec fn p_mul_rest(lhs: Ast, ts: Seq<TokenView>, vars: Seq<Seq<char>>) -> PResult
    decreases ts.len(), 2int,
{
    if ts.len() > 0 && (at(ts, "*"@) || at(ts, "/"@)) {
        let k = if at(ts, "*"@) { NodeKind::Mul } else { NodeKind::Div };
        match p_unary(ts.drop_first(), vars) {
            Ok((n, r, v)) => if r.len() < ts.len() {
                p_mul_rest(Ast::Binary(k, bx(lhs), bx(n)), r, v)
            } else {
                Err(err_at(r, ParseErrorKind::ExpectedExpression))
            },
            Err(e) => Err(e),
        }
    } else {
        Ok((lhs, ts, vars))
    }
}

pub open spec fn p_mul(ts: Seq<TokenView>, vars: Seq<Seq<char>>) -> PResult
    decreases ts.len(), 3int,
{
    match p_unary(ts, vars) {
        Ok((n, r, v)) => if r.len() <= ts.len() {
            p_mul_rest(n, r, v)
        } else {
            Err(err_at(r, ParseErrorKind::ExpectedExpression))
        },
        Err(e) => Err(e),
    }
}

/// The operators after the first operand of `add = mul ("+" mul | "-" mul)*`.
pub open spec fn p_add_rest(lhs: Ast, ts: Seq<TokenView>, vars: Seq<Seq<char>>) -> PResult
    decreases ts.len(), 4int,
{
    if ts.len() > 0 && (at(ts, "+"@) || at(ts, "-"@)) {
        let k = if at(ts, "+"@) { NodeKind::Add } else { NodeKind::Sub };
        match p_mul(ts.drop_first(), vars) {
            Ok((n, r, v)) => if r.len() < ts.len() {
                p_add_rest(Ast::Binary(k, bx(lhs), bx(n)), r, v)
            } else {
                Err(err_at(r, ParseErrorKind::ExpectedExpression))
            },
            Err(e) => Err(e),
        }
    } else {
        Ok((lhs, ts, vars))
    }
}

pub open spec fn p_add(ts: Seq<TokenView>, vars: Seq<Seq<char>>) -> PResult
    decreases ts.len(), 5int,
{
    match p_mul(ts, vars) {
        Ok((n, r, v)) => if r.len() <= ts.len() {
            p_add_rest(n, r, v)
        } else {
            Err(err_at(r, ParseErrorKind::ExpectedExpression))
        },
        Err(e) => Err(e),
    }
}

/// The operators after the first operand of
/// `relational = add ("<" add | "<=" add | ">" equality | ">=" equality)*`;
/// `a > b` is `b < a` and `a >= b` is `b <= a`.
pub open spec fn p_rel_rest(lhs: Ast, ts: Seq<TokenView>, vars: Seq<Seq<char>>) -> PResult
    decreases ts.len(), 6int,
{
    if ts.len() > 0 && (at(ts, "<"@) || at(ts, "<="@)) {
        let k = if at(ts, "<"@) { NodeKind::Lt } else { NodeKind::Le };
        match p_add(ts.drop_first(), vars) {
            Ok((n, r, v)) => if r.len() < ts.len() {
                p_rel_rest(Ast::Binary(k, bx(lhs), bx(n)), r, v)
            } else {
                Err(err_at(r, ParseErrorKind::ExpectedExpression))
            },
            Err(e) => Err(e),
        }
    } else if ts.len() > 0 && (at(ts, ">"@) || at(ts, ">="@)) {
        let k = if at(ts, ">"@) { NodeKind::Lt } else { NodeKind::Le };
        match p_equality(ts.drop_first(), vars) {
            Ok((n, r, v)) => if r.len() < ts.len() {
                p_rel_rest(Ast::Binary(k, bx(n), bx(lhs)), r, v)
            } else {
                Err(err_at(r, ParseErrorKind::ExpectedExpression))
            },
            Err(e) => Err(e),
        }
    } else {
        Ok((lhs, ts, vars))
    }
}

pub open spec fn p_relational(ts: Seq<TokenView>, vars: Seq<Seq<char>>) -> PResult
    decreases ts.len(), 7int,
{
    match p_add(ts, vars) {
        Ok((n, r, v)) => if r.len() <= ts.len() {
            p_rel_rest(n, r, v)
        } else {
            Err(err_at(r, ParseErrorKind::ExpectedExpression))
        },
        Err(e) => Err(e),
    }
}

/// The operators after the first operand of
/// `equality = relational ("==" relational | "!=" relational)*`.
pub open spec fn p_eq_rest(lhs: Ast, ts: Seq<TokenView>, vars: Seq<Seq<char>>) -> PResult
    decreases ts.len(), 8int,
{
    if ts.len() > 0 && (at(ts, "=="@) || at(ts, "!="@)) {
        let k = if at(ts, "=="@) { NodeKind::Eq } else { NodeKind::Ne };
        match p_relational(ts.drop_first(), vars) {
            Ok((n, r, v)) => if r.len() < ts.len() {
                p_eq_rest(Ast::Binary(k, bx(lhs), bx(n)), r, v)
            } else {
                Err(err_at(r, ParseErrorKind::ExpectedExpression))
            },
            Err(e) => Err(e),
        }
    } else {
        Ok((lhs, ts, vars))
    }
}

pub open spec fn p_equality(ts: Seq<TokenView>, vars: Seq<Seq<char>>) -> PResult
    decreases ts.len(), 9int,
{
    match p_relational(ts, vars) {
        Ok((n, r, v)) => if r.len() <= ts.len() {
            p_eq_rest(n, r, v)
        } else {
            Err(err_at(r, ParseErrorKind::ExpectedExpression))
        },
        Err(e) => Err(e),
    }
}

/// `assign = equality ("=" assign)?`
pub open spec fn p_assign(ts: Seq<TokenView>, vars: Seq<Seq<char>>) -> PResult
    decreases ts.len(), 10int,
{
    match p_equality(ts, vars) {
        Ok((n, r, v)) => if at(r, "="@) {
            if r.len() <= ts.len() {
                match p_assign(r.drop_first(), v) {
                    Ok((m, r2, v2)) => Ok((Ast::Binary(NodeKind::Assign, bx(n), bx(m)), r2, v2)),
                    Err(e) => Err(e),
                }
            } else {
                Err(err_at(r, ParseErrorKind::ExpectedExpression))
            }
        } else {
            Ok((n, r, v))
        },
        Err(e) => Err(e),
    }
}

/// `expr = assign`
pub open spec fn p_expr(ts: Seq<TokenView>, vars: Seq<Seq<char>>) -> PResult
    decreases ts.len(), 11int,
{
    p_assign(ts, vars)
}

/// What parsing a statement list yields.
pub type BResult = Result<(Seq<Ast>, Seq<TokenView>, Seq<Seq<char>>), ParseError>;

/// What parsing an optional expression yields.
pub type OResult = Result<(Option<Box<Ast>>, Seq<TokenView>, Seq<Seq<char>>), ParseError>;

/// `"(" expr ")"`, the condition of `if` and `while`.
pub open spec fn p_cond(ts: Seq<TokenView>, vars: Seq<Seq<char>>) -> PResult
    decreases ts.len(), 12int,
{
    if !at(ts, "("@) {
        Err(err_at(ts, ParseErrorKind::Expected('(')))
    } else {
        match p_expr(ts.drop_first(), vars) {
            Ok((c, r, v)) => if at(r, ")"@) {
                Ok((c, r.drop_first(), v))
            } else {
                Err(err_at(r, ParseErrorKind::Expected(')')))
            },
            Err(e) => Err(e),
        }
    }
}

/// `expr? c`, the condition and the increment of `for`.
pub open spec fn p_opt_expr(ts: Seq<TokenView>, vars: Seq<Seq<char>>, c: char) -> OResult
    decreases ts.len(), 12int,
{
    if at(ts, seq![c]) {
        Ok((None, ts.drop_first(), vars))
    } else {
        match p_expr(ts, vars) {
            Ok((e, r, v)) => if at(r, seq![c]) {
                Ok((Some(bx(e)), r.drop_first(), v))
            } else {
                Err(err_at(r, ParseErrorKind::Expected(c)))
            },
            Err(e) => Err(e),
        }
    }
}

/// `expr-stmt = expr? ";"`; the empty statement is an empty block.
pub open spec fn p_expr_stmt(ts: Seq<TokenView>, vars: Seq<Seq<char>>) -> PResult
    decreases ts.len(), 13int,
{
    if at(ts, ";"@) {
        Ok((Ast::Block(Seq::empty()), ts.drop_first(), vars))
    } else {
        match p_expr(ts, vars) {
            Ok((e, r, v)) => if at(r, ";"@) {
                Ok((Ast::Unary(NodeKind::ExprStmt, bx(e)), r.drop_first(), v))
            } else {
                Err(err_at(r, ParseErrorKind::Expected(';')))
            },
            Err(e) => Err(e),
        }
    }
}

/// The tail of `"if" "(" expr ")" stmt ("else" stmt)?` after the condition.
pub open spec fn p_if_tail(c: Ast, ts: Seq<TokenView>, vars: Seq<Seq<char>>) -> PResult
    decreases ts.len(), 17int,
{
    match p_stmt(ts, vars) {
        Ok((t, r, v)) => if at(r, "else"@) {
            if r.len() <= ts.len() {
                match p_stmt(r.drop_first(), v) {
                    Ok((e, r2, v2)) => Ok((Ast::If(bx(c), bx(t), Some(bx(e))), r2, v2)),
                    Err(e) => Err(e),
                }
            } else {
                Err(err_at(r, ParseErrorKind::ExpectedExpression))
            }
        } else {
            Ok((Ast::If(bx(c), bx(t), None), r, v))
        },
        Err(e) => Err(e),
    }
}

/// The tail of `"for" "(" expr-stmt expr? ";" expr? ")" stmt` after the opening parenthesis.
pub open spec fn p_for_tail(ts: Seq<TokenView>, vars: Seq<Seq<char>>) -> PResult
    decreases ts.len(), 19int,
{
    match p_expr_stmt(ts, vars) {
        Ok((i, r, v)) => if r.len() <= ts.len() {
            p_for_cond(i, r, v)
        } else {
            Err(err_at(r, ParseErrorKind::ExpectedExpression))
        },
        Err(e) => Err(e),
    }
}

/// The part of a `for` statement after its initialiser.
pub open spec fn p_for_cond(i: Ast, ts: Seq<TokenView>, vars: Seq<Seq<char>>) -> PResult
    decreases ts.len(), 18int,
{
    match p_opt_expr(ts, vars, ';') {
        Ok((c, r, v)) => if r.len() <= ts.len() {
            p_for_inc(i, c, r, v)
        } else {
            Err(err_at(r, ParseErrorKind::ExpectedExpression))
        },
        Err(e) => Err(e),
    }
}

/// The part of a `for` statement after its condition.
pub open spec fn p_for_inc(i: Ast, c: Option<Box<Ast>>, ts: Seq<TokenView>, vars: Seq<Seq<char>>) -> PResult
    decreases ts.len(), 17int,
{
    match p_opt_expr(ts, vars, ')') {
        Ok((n, r, v)) => if r.len() <= ts.len() {
            match p_stmt(r, v) {
                Ok((b, r2, v2)) => Ok((Ast::For(Some(bx(i)), c, n, bx(b)), r2, v2)),
                Err(e) => Err(e),
            }
        } else {
            Err(err_at(r, ParseErrorKind::ExpectedExpression))
        },
        Err(e) => Err(e),
    }
}

/// ```text
/// stmt = "return" expr ";"
///      | "{" block-stmt
///      | "if" "(" expr ")" stmt ("else" stmt)?
///      | "for" "(" expr-stmt expr? ";" expr? ")" stmt
///      | "while" "(" expr ")" stmt
///      | expr-stmt
/// ```
pub open spec fn p_stmt(ts: Seq<TokenView>, vars: Seq<Seq<char>>) -> PResult
    decreases ts.len(), 16int,
{
    if ts.len() == 0 {
        Err(err_at(ts, ParseErrorKind::ExpectedExpression))
    } else if at(ts, "return"@) {
        match p_expr(ts.drop_first(), vars) {
            Ok((e, r, v)) => if at(r, ";"@) {
                Ok((Ast::Unary(NodeKind::Return, bx(e)), r.drop_first(), v))
            } else {
                Err(err_at(r, ParseErrorKind::Expected(';')))
            },
            Err(e) => Err(e),
        }
    } else if at(ts, "{"@) {
        match p_block(ts.drop_first(), vars) {
            Ok((b, r, v)) => Ok((Ast::Block(b), r, v)),
            Err(e) => Err(e),
        }
    } else if at(ts, "if"@) {
        match p_cond(ts.drop_first(), vars) {
            Ok((c, r, v)) => if r.len() < ts.len() {
                p_if_tail(c, r, v)
            } else {
                Err(err_at(r, ParseErrorKind::ExpectedExpression))
            },
            Err(e) => Err(e),
        }
    } else if at(ts, "for"@) {
        let t1 = ts.drop_first();
        if !at(t1, "("@) {
            Err(err_at(t1, ParseErrorKind::Expected('(')))
        } else {
            p_for_tail(t1.drop_first(), vars)
        }
    } else if at(ts, "while"@) {
        match p_cond(ts.drop_first(), vars) {
            Ok((c, r, v)) => if r.len() < ts.len() {
                match p_stmt(r, v) {
                    Ok((b, r2, v2)) => Ok((Ast::For(None, Some(bx(c)), None, bx(b)), r2, v2)),
                    Err(e) => Err(e),
                }
            } else {
                Err(err_at(r, ParseErrorKind::ExpectedExpression))
            },
            Err(e) => Err(e),
        }
    } else {
        p_expr_stmt(ts, vars)
    }
}

/// `block-stmt = stmt* "}"`: the statements up to the closing brace.
pub open spec fn p_block(ts: Seq<TokenView>, vars: Seq<Seq<char>>) -> BResult
    decreases ts.len(), 20int,
{
    if at(ts, "}"@) {
        Ok((Seq::empty(), ts.drop_first(), vars))
    } else {
        match p_stmt(ts, vars) {
            Ok((s, r, v)) => if r.len() < ts.len() {
                match p_block(r, v) {
                    Ok((b, r2, v2)) => Ok((seq![s] + b, r2, v2)),
                    Err(e) => Err(e),
                }
            } else {
                Err(err_at(r, ParseErrorKind::ExpectedExpression))
            },
            Err(e) => Err(e),
        }
    }
}

/// `function = "{" block-stmt`: the body's statements and the function's variables,
/// in the order of their first reference.
pub open spec fn p_function(ts: Seq<TokenView>) -> Result<(Seq<Ast>, Seq<Seq<char>>), ParseError> {
    if !at(ts, "{"@) {
        Err(err_at(ts, ParseErrorKind::Expected('{')))
    } else {
        match p_block(ts.drop_first(), Seq::empty()) {
            Ok((b, r, v)) => Ok((b, v)),
            Err(e) => Err(e),
        }
    }
}

/// The most tokens plus variables that one parse may handle: it keeps every
/// frame offset and the frame size within `i32`.
pub const PARSE_LIMIT: usize = 0x0fff_0000;

/// The names of the variables in a symbol table.
pub open spec fn names(locals: Seq<Obj>) -> Seq<Seq<char>> {
    locals.map_values(|o: Obj| o.name@)
}

/// No name occurs twice.
pub open spec fn distinct_names(vars: Seq<Seq<char>>) -> bool {
    forall|i: int, j: int| 0 <= i < j < vars.len() ==> #[trigger] vars[i] != #[trigger] vars[j]
}

/// Each variable sits in the slot that its position gives, and names each
/// identifier once.
pub open spec fn locals_wf(locals: Seq<Obj>) -> bool {
    &&& forall|i: int| 0 <= i < locals.len() ==> (#[trigger] locals[i]).offset == slot_offset(i)
    &&& distinct_names(names(locals))
}

/// Among distinct names, the position of a name is where it stands.
pub proof fn lemma_var_index_distinct(vars: Seq<Seq<char>>, name: Seq<char>, i: int)
    requires
        distinct_names(vars),
        0 <= i < vars.len(),
        vars[i] == name,
    ensures
        var_index(vars, name) == i,
{
    lemma_var_index(vars, name);
    assert(vars.contains(name));
    let k = var_index(vars, name);
    if k < i {
        assert(vars[k] != vars[i]);
    } else if k > i {
        assert(vars[i] != vars[k]);
    }
}

/// Looks `name` up among the variables: the offset of its first entry, if it is there.
pub fn find_var(locals: &Vec<Obj>, name: &String) -> (r: Option<i32>)
    requires
        locals_wf(locals@),
    ensures
        var_index(names(locals@), name@) >= 0 ==> r == Some(
            slot_offset(var_index(names(locals@), name@)) as i32,
        ),
        var_index(names(locals@), name@) < 0 ==> r.is_none(),
{
    let ghost ns = names(locals@);
    let mut i: usize = 0;
    while i < locals.len()
        invariant
            i <= locals.len(),
            ns == names(locals@),
            locals_wf(locals@),
            forall|j: int| 0 <= j < i ==> ns[j] != name@,
        decreases locals.len() - i,
    {
        let o = &locals[i];
        assert(ns[i as int] == o.name@);
        if o.name == *name {
            proof {
                lemma_var_index_distinct(ns, name@, i as int);
            }
            return Some(o.offset);
        }
        i = i + 1;
    }
    proof {
        lemma_var_index(ns, name@);
        if var_index(ns, name@) >= 0 {
            assert(ns[var_index(ns, name@)] == name@);
        }
    }
    None
}

/// The offset that the next new variable gets.
pub fn get_offset(locals: &Vec<Obj>) -> (r: i32)
    requires
        locals.len() < PARSE_LIMIT,
    ensures
        r == slot_offset(locals.len() as int),
{
    -8 * (locals.len() as i32 + 1)
}

/// Resolves a reference to `name`: the existing variable of that name, or a new
/// one in the next slot. Returns its offset.
pub fn resolve(locals: &mut Vec<Obj>, name: &String) -> (r: i32)
    requires
        locals_wf(old(locals)@),
        old(locals).len() < PARSE_LIMIT,
    ensures
        names(final(locals)@) == declare(names(old(locals)@), name@),
        r == slot_offset(var_index(names(final(locals)@), name@)),
        locals_wf(final(locals)@),
        final(locals).len() <= old(locals).len() + 1,
{
    proof {
        lemma_var_index(names(locals@), name@);
    }
    match find_var(locals, name) {
        Some(offset) => offset,
        None => {
            let offset = get_offset(locals);
            let ghost before = names(locals@);
            locals.push(Obj { name: name.clone(), offset });
            assert(names(locals@) =~= before.push(name@));
            assert forall|i: int, j: int| 0 <= i < j < names(locals@).len() implies #[trigger] names(
                locals@,
            )[i] != #[trigger] names(locals@)[j] by {
                if j == before.len() {
                    assert(before[i] != name@);
                } else {
                    assert(before[i] != before[j]);
                }
            }
            offset
        },
    }
}

/// `n` rounded up to the nearest multiple of `align`.
pub open spec fn align_up(n: int, align: int) -> int {
    (n + align - 1) / align * align
}

/// A function's frame holds 8 bytes for each of its `n` variables and keeps the
/// stack 16-byte aligned.
pub proof fn lemma_frame_size(n: nat)
    ensures
        align_up(8 * n as int, 16) >= 8 * n,
        align_up(8 * n as int, 16) % 16 == 0,
        align_up(8 * n as int, 16) < 8 * n + 16,
{
    let m = 8 * n as int + 15;
    assert((m / 16) * 16 > m - 16 && (m / 16) * 16 <= m && ((m / 16) * 16) % 16 == 0) by (nonlinear_arith)
        requires
            m >= 0,
    ;
}

/// Rounds `n` up to the nearest multiple of `align`.
pub fn align_to(n: i32, align: i32) -> (r: i32)
    requires
        0 <= n,
        0 < align,
        n + align - 1 <= i32::MAX,
    ensures
        r == align_up(n as int, align as int),
{
    let m: i32 = n + (align - 1);
    assert(0 <= (m / align) * align <= m) by (nonlinear_arith)
        requires
            0 <= m,
            0 < align,
    ;
    m / align * align
}

/// The model of what an executable parse step returned.
pub open spec fn lift(r: Result<(Box<Node>, Box<Token>), ParseError>, locals: Seq<Obj>) -> PResult {
    match r {
        Ok((n, t)) => Ok((n.view(), t.seq(), names(locals))),
        Err(e) => Err(e),
    }
}

/// What each parse step needs: well-formed tokens and symbol table, within the size limit.
pub open spec fn parse_pre(t: &Token, locals: Seq<Obj>) -> bool {
    &&& tokens_wf(t.seq())
    &&& locals_wf(locals)
    &&& locals.len() + t.seq().len() <= PARSE_LIMIT
}

/// What each parse step keeps: the symbol table well-formed, and on success at least
/// one token consumed, and no more variables added than tokens consumed.
pub open spec fn parse_post(
    r: Result<(Box<Node>, Box<Token>), ParseError>,
    ts: Seq<TokenView>,
    before: Seq<Obj>,
    after: Seq<Obj>,
) -> bool {
    &&& locals_wf(after)
    &&& match r {
        Ok((n, t)) => {
            &&& tokens_wf(t.seq())
            &&& t.seq().len() < ts.len()
            &&& after.len() + t.seq().len() <= before.len() + ts.len()
            &&& n.next.is_none()
        },
        Err(_) => true,
    }
}

/// `primary = "(" expr ")" | ident | num`
pub fn primary(tok: Box<Token>, locals: &mut Vec<Obj>) -> (r: Result<(Box<Node>, Box<Token>), ParseError>)
    requires
        parse_pre(&tok, old(locals)@),
    ensures
        lift(r, final(locals)@) == p_primary(tok.seq(), names(old(locals)@)),
        parse_post(r, tok.seq(), old(locals)@, final(locals)@),
    decreases tok.seq().len(), 0int,
{
    proof {
        lemma_seq_first(&tok);
        reveal_strlit(")");
        assert(")"@ =~= seq![')']);
    }
    let ghost ts = tok.seq();
    if tok.eq_punct("(") {
        proof {
            lemma_tokens_wf_drop(ts);
        }
        let t = tok.next();
        match expr(t, locals) {
            Ok((n, t)) => {
                proof {
                    lemma_seq_first(&t);
                }
                match t.skip(')') {
                    Ok(t) => Ok((n, t)),
                    Err(e) => Err(e),
                }
            },
            Err(e) => Err(e),
        }
    } else if tok.kind == TokenKind::Ident {
        proof {
            lemma_tokens_wf_drop(ts);
        }
        let node = match &tok.string {
            Some(name) => {
                let offset = resolve(locals, name);
                Node::new_var(Obj { name: name.clone(), offset })
            },
            None => unreached(),
        };
        Ok((node, tok.next()))
    } else if tok.kind == TokenKind::Num {
        proof {
            lemma_tokens_wf_drop(ts);
        }
        let node = Node::new_num(tok.get_number());
        Ok((node, tok.next()))
    } else {
        Err(ParseError { location: tok.location, kind: ParseErrorKind::ExpectedExpression })
    }
}

/// `unary = ("+" | "-") unary | primary`
pub fn unary(tok: Box<Token>, locals: &mut Vec<Obj>) -> (r: Result<(Box<Node>, Box<Token>), ParseError>)
    requires
        parse_pre(&tok, old(locals)@),
    ensures
        lift(r, final(locals)@) == p_unary(tok.seq(), names(old(locals)@)),
        parse_post(r, tok.seq(), old(locals)@, final(locals)@),
    decreases tok.seq().len(), 1int,
{
    proof {
        lemma_seq_first(&tok);
    }
    let ghost ts = tok.seq();
    if tok.eq_punct("+") {
        proof {
            lemma_tokens_wf_drop(ts);
        }
        unary(tok.next(), locals)
    } else if tok.eq_punct("-") {
        proof {
            lemma_tokens_wf_drop(ts);
        }
        match unary(tok.next(), locals) {
            Ok((n, t)) => Ok((Node::new_unary(NodeKind::Neg, n), t)),
            Err(e) => Err(e),
        }
    } else {
        primary(tok, locals)
    }
}

/// `mul = unary ("*" unary | "/" unary)*`
pub fn mul(tok: Box<Token>, locals: &mut Vec<Obj>) -> (r: Result<(Box<Node>, Box<Token>), ParseError>)
    requires
        parse_pre(&tok, old(locals)@),
    ensures
        lift(r, final(locals)@) == p_mul(tok.seq(), names(old(locals)@)),
        parse_post(r, tok.seq(), old(locals)@, final(locals)@),
    decreases tok.seq().len(), 3int,
{
    let ghost ts0 = tok.seq();
    let ghost v0 = locals@;
    let (mut left, mut cur) = match unary(tok, locals) {
        Ok(p) => p,
        Err(e) => return Err(e),
    };
    loop
        invariant
            p_mul(ts0, names(v0)) == p_mul_rest(left.view(), cur.seq(), names(locals@)),
            tokens_wf(cur.seq()),
            cur.seq().len() < ts0.len(),
            locals_wf(locals@),
            locals.len() + cur.seq().len() <= v0.len() + ts0.len(),
            v0.len() + ts0.len() <= PARSE_LIMIT,
            left.next.is_none(),
            ts0 == tok.seq(),
            v0 == old(locals)@,
        decreases cur.seq().len(),
    {
        proof {
            lemma_seq_first(&cur);
        }
        let ghost ts = cur.seq();
        let is_mul = cur.eq_punct("*");
        if is_mul || cur.eq_punct("/") {
            let kind = if is_mul { NodeKind::Mul } else { NodeKind::Div };
            proof {
                lemma_tokens_wf_drop(ts);
            }
            match unary(cur.next(), locals) {
                Ok((right, t)) => {
                    left = Node::new_binary(kind, left, right);
                    cur = t;
                },
                Err(e) => return Err(e),
            }
        } else {
            return Ok((left, cur));
        }
    }
}

/// `add = mul ("+" mul | "-" mul)*`
pub fn add(tok: Box<Token>, locals: &mut Vec<Obj>) -> (r: Result<(Box<Node>, Box<Token>), ParseError>)
    requires
        parse_pre(&tok, old(locals)@),
    ensures
        lift(r, final(locals)@) == p_add(tok.seq(), names(old(locals)@)),
        parse_post(r, tok.seq(), old(locals)@, final(locals)@),
    decreases tok.seq().len(), 5int,
{
    let ghost ts0 = tok.seq();
    let ghost v0 = locals@;
    let (mut left, mut cur) = match crate::parse::mul(tok, locals) {
        Ok(p) => p,
        Err(e) => return Err(e),
    };
    loop
        invariant
            p_add(ts0, names(v0)) == p_add_rest(left.view(), cur.seq(), names(locals@)),
            tokens_wf(cur.seq()),
            cur.seq().len() < ts0.len(),
            locals_wf(locals@),
            locals.len() + cur.seq().len() <= v0.len() + ts0.len(),
            v0.len() + ts0.len() <= PARSE_LIMIT,
            left.next.is_none(),
            ts0 == tok.seq(),
            v0 == old(locals)@,
        decreases cur.seq().len(),
    {
        proof {
            lemma_seq_first(&cur);
        }
        let ghost ts = cur.seq();
        let is_add = cur.eq_punct("+");
        if is_add || cur.eq_punct("-") {
            let kind = if is_add { NodeKind::Add } else { NodeKind::Sub };
            proof {
                lemma_tokens_wf_drop(ts);
            }
            match crate::parse::mul(cur.next(), locals) {
                Ok((right, t)) => {
                    left = Node::new_binary(kind, left, right);
                    cur = t;
                },
                Err(e) => return Err(e),
            }
        } else {
            return Ok((left, cur));
        }
    }
}

/// `relational = add ("<" add | "<=" add | ">" equality | ">=" equality)*`
pub fn relational(tok: Box<Token>, locals: &mut Vec<Obj>) -> (r: Result<(Box<Node>, Box<Token>), ParseError>)
    requires
        parse_pre(&tok, old(locals)@),
    ensures
        lift(r, final(locals)@) == p_relational(tok.seq(), names(old(locals)@)),
        parse_post(r, tok.seq(), old(locals)@, final(locals)@),
    decreases tok.seq().len(), 7int,
{
    let ghost ts0 = tok.seq();
    let ghost v0 = locals@;
    let (mut left, mut cur) = match crate::parse::add(tok, locals) {
        Ok(p) => p,
        Err(e) => return Err(e),
    };
    loop
        invariant
            p_relational(ts0, names(v0)) == p_rel_rest(left.view(), cur.seq(), names(locals@)),
            tokens_wf(cur.seq()),
            cur.seq().len() < ts0.len(),
            locals_wf(locals@),
            locals.len() + cur.seq().len() <= v0.len() + ts0.len(),
            v0.len() + ts0.len() <= PARSE_LIMIT,
            left.next.is_none(),
            ts0 == tok.seq(),
            v0 == old(locals)@,
        decreases cur.seq().len(),
    {
        proof {
            lemma_seq_first(&cur);
        }
        let ghost ts = cur.seq();
        let is_lt = cur.eq_punct("<");
        let is_gt = cur.eq_punct(">");
        if is_lt || cur.eq_punct("<=") {
            let kind = if is_lt { NodeKind::Lt } else { NodeKind::Le };
            proof {
                lemma_tokens_wf_drop(ts);
            }
            match crate::parse::add(cur.next(), locals) {
                Ok((right, t)) => {
                    left = Node::new_binary(kind, left, right);
                    cur = t;
                },
                Err(e) => return Err(e),
            }
        } else if is_gt || cur.eq_punct(">=") {
            let kind = if is_gt { NodeKind::Lt } else { NodeKind::Le };
            proof {
                lemma_tokens_wf_drop(ts);
            }
            match equality(cur.next(), locals) {
                Ok((right, t)) => {
                    left = Node::new_binary(kind, right, left);
                    cur = t;
                },
                Err(e) => return Err(e),
            }
        } else {
            return Ok((left, cur));
        }
    }
}

/// `equality = relational ("==" relational | "!=" relational)*`
pub fn equality(tok: Box<Token>, locals: &mut Vec<Obj>) -> (r: Result<(Box<Node>, Box<Token>), ParseError>)
    requires
        parse_pre(&tok, old(locals)@),
    ensures
        lift(r, final(locals)@) == p_equality(tok.seq(), names(old(locals)@)),
        parse_post(r, tok.seq(), old(locals)@, final(locals)@),
    decreases tok.seq().len(), 9int,
{
    let ghost ts0 = tok.seq();
    let ghost v0 = locals@;
    let (mut left, mut cur) = match relational(tok, locals) {
        Ok(p) => p,
        Err(e) => return Err(e),
    };
    loop
        invariant
            p_equality(ts0, names(v0)) == p_eq_rest(left.view(), cur.seq(), names(locals@)),
            tokens_wf(cur.seq()),
            cur.seq().len() < ts0.len(),
            locals_wf(locals@),
            locals.len() + cur.seq().len() <= v0.len() + ts0.len(),
            v0.len() + ts0.len() <= PARSE_LIMIT,
            left.next.is_none(),
            ts0 == tok.seq(),
            v0 == old(locals)@,
        decreases cur.seq().len(),
    {
        proof {
            lemma_seq_first(&cur);
        }
        let ghost ts = cur.seq();
        let is_eq = cur.eq_punct("==");
        if is_eq || cur.eq_punct("!=") {
            let kind = if is_eq { NodeKind::Eq } else { NodeKind::Ne };
            proof {
                lemma_tokens_wf_drop(ts);
            }
            match relational(cur.next(), locals) {
                Ok((right, t)) => {
                    left = Node::new_binary(kind, left, right);
                    cur = t;
                },
                Err(e) => return Err(e),
            }
        } else {
            return Ok((left, cur));
        }
    }
}

/// `assign = equality ("=" assign)?`
pub fn assign(tok: Box<Token>, locals: &mut Vec<Obj>) -> (r: Result<(Box<Node>, Box<Token>), ParseError>)
    requires
        parse_pre(&tok, old(locals)@),
    ensures
        lift(r, final(locals)@) == p_assign(tok.seq(), names(old(locals)@)),
        parse_post(r, tok.seq(), old(locals)@, final(locals)@),
    decreases tok.seq().len(), 10int,
{
    let (left, cur) = match equality(tok, locals) {
        Ok(p) => p,
        Err(e) => return Err(e),
    };
    proof {
        lemma_seq_first(&cur);
    }
    if cur.eq_punct("=") {
        proof {
            lemma_tokens_wf_drop(cur.seq());
        }
        match assign(cur.next(), locals) {
            Ok((right, t)) => Ok((Node::new_binary(NodeKind::Assign, left, right), t)),
            Err(e) => Err(e),
        }
    } else {
        Ok((left, cur))
    }
}

/// `expr = assign`
pub fn expr(tok: Box<Token>, locals: &mut Vec<Obj>) -> (r: Result<(Box<Node>, Box<Token>), ParseError>)
    requires
        parse_pre(&tok, old(locals)@),
    ensures
        lift(r, final(locals)@) == p_expr(tok.seq(), names(old(locals)@)),
        parse_post(r, tok.seq(), old(locals)@, final(locals)@),
    decreases tok.seq().len(), 11int,
{
    assign(tok, locals)
}

/// The model of an optional expression that an executable step returned.
pub open spec fn lift_opt(
    r: Result<(Option<Box<Node>>, Box<Token>), ParseError>,
    locals: Seq<Obj>,
) -> OResult {
    match r {
        Ok((n, t)) => Ok(
            (
                match n {
                    Some(b) => Some(Box::new(b.view())),
                    None => None,
                },
                t.seq(),
                names(locals),
            ),
        ),
        Err(e) => Err(e),
    }
}

pub open spec fn lift_block(r: BResult) -> PResult {
    match r {
        Ok((b, t, v)) => Ok((Ast::Block(b), t, v)),
        Err(e) => Err(e),
    }
}

pub open spec fn prepend_stmts(p: Seq<Ast>, r: BResult) -> BResult {
    match r {
        Ok((b, t, v)) => Ok((p + b, t, v)),
        Err(e) => Err(e),
    }
}

/// `"(" expr ")"`
fn paren_cond(tok: Box<Token>, locals: &mut Vec<Obj>) -> (r: Result<(Box<Node>, Box<Token>), ParseError>)
    requires
        parse_pre(&tok, old(locals)@),
    ensures
        lift(r, final(locals)@) == p_cond(tok.seq(), names(old(locals)@)),
        parse_post(r, tok.seq(), old(locals)@, final(locals)@),
    decreases tok.seq().len(), 12int,
{
    proof {
        lemma_seq_first(&tok);
        reveal_strlit("(");
        assert("("@ =~= seq!['(']);
        reveal_strlit(")");
        assert(")"@ =~= seq![')']);
    }
    let cur = match tok.skip('(') {
        Ok(t) => t,
        Err(e) => return Err(e),
    };
    let (c, cur) = match expr(cur, locals) {
        Ok(p) => p,
        Err(e) => return Err(e),
    };
    proof {
        lemma_seq_first(&cur);
    }
    match cur.skip(')') {
        Ok(t) => Ok((c, t)),
        Err(e) => Err(e),
    }
}

/// `expr? c`
fn opt_expr(tok: Box<Token>, locals: &mut Vec<Obj>, c: char) -> (r: Result<(Option<Box<Node>>, Box<Token>), ParseError>)
    requires
        parse_pre(&tok, old(locals)@),
    ensures
        lift_opt(r, final(locals)@) == p_opt_expr(tok.seq(), names(old(locals)@), c),
        locals_wf(final(locals)@),
        r matches Ok((n, t)) ==> {
            &&& tokens_wf(t.seq())
            &&& t.seq().len() < tok.seq().len()
            &&& final(locals).len() + t.seq().len() <= old(locals).len() + tok.seq().len()
            &&& n matches Some(b) ==> b.next.is_none()
        },
    decreases tok.seq().len(), 12int,
{
    proof {
        lemma_seq_first(&tok);
    }
    let s = if c == ';' {
        tok.eq_punct(";")
    } else if c == ')' {
        tok.eq_punct(")")
    } else {
        false
    };
    proof {
        reveal_strlit(";");
        reveal_strlit(")");
        assert(";"@ =~= seq![';']);
        assert(")"@ =~= seq![')']);
    }
    if s || is_punct_char(&tok, c) {
        proof {
            lemma_tokens_wf_drop(tok.seq());
        }
        return Ok((None, tok.next()));
    }
    let (e, cur) = match expr(tok, locals) {
        Ok(p) => p,
        Err(e) => return Err(e),
    };
    proof {
        lemma_seq_first(&cur);
    }
    match cur.skip(c) {
        Ok(t) => Ok((Some(e), t)),
        Err(e) => Err(e),
    }
}

/// Whether `tok` is the one-character punctuator `c`.
fn is_punct_char(tok: &Token, c: char) -> (r: bool)
    ensures
        r == is_text(tok.head(), seq![c]),
{
    match &tok.string {
        Some(t) => {
            let t = t.as_str();
            if t.unicode_len() == 1 {
                let d = t.get_char(0);
                proof {
                    if d == c {
                        assert(t@ =~= seq![c]);
                    }
                }
                d == c
            } else {
                false
            }
        },
        None => false,
    }
}

/// `expr-stmt = expr? ";"`
pub fn expr_stmt(tok: Box<Token>, locals: &mut Vec<Obj>) -> (r: Result<(Box<Node>, Box<Token>), ParseError>)
    requires
        parse_pre(&tok, old(locals)@),
    ensures
        lift(r, final(locals)@) == p_expr_stmt(tok.seq(), names(old(locals)@)),
        parse_post(r, tok.seq(), old(locals)@, final(locals)@),
    decreases tok.seq().len(), 13int,
{
    proof {
        lemma_seq_first(&tok);
        reveal_strlit(";");
        assert(";"@ =~= seq![';']);
    }
    if tok.eq_punct(";") {
        proof {
            lemma_tokens_wf_drop(tok.seq());
        }
        return Ok((Node::new(NodeKind::Block), tok.next()));
    }
    let (e, cur) = match expr(tok, locals) {
        Ok(p) => p,
        Err(e) => return Err(e),
    };
    proof {
        lemma_seq_first(&cur);
    }
    match cur.skip(';') {
        Ok(t) => Ok((Node::new_unary(NodeKind::ExprStmt, e), t)),
        Err(e) => Err(e),
    }
}

/// The rest of an `if` statement after its condition.
fn if_tail(c: Box<Node>, tok: Box<Token>, locals: &mut Vec<Obj>) -> (r: Result<(Box<Node>, Box<Token>), ParseError>)
    requires
        parse_pre(&tok, old(locals)@),
    ensures
        lift(r, final(locals)@) == p_if_tail(c.view(), tok.seq(), names(old(locals)@)),
        parse_post(r, tok.seq(), old(locals)@, final(locals)@),
    decreases tok.seq().len(), 17int,
{
    let (t, cur) = match stmt(tok, locals) {
        Ok(p) => p,
        Err(e) => return Err(e),
    };
    proof {
        lemma_seq_first(&cur);
    }
    if cur.eq_punct("else") {
        proof {
            lemma_tokens_wf_drop(cur.seq());
        }
        match stmt(cur.next(), locals) {
            Ok((e, rest)) => Ok((Node::new_if(c, t, Some(e)), rest)),
            Err(e) => Err(e),
        }
    } else {
        Ok((Node::new_if(c, t, None), cur))
    }
}

/// The rest of a `for` statement after its opening parenthesis.
fn for_tail(tok: Box<Token>, locals: &mut Vec<Obj>) -> (r: Result<(Box<Node>, Box<Token>), ParseError>)
    requires
        parse_pre(&tok, old(locals)@),
    ensures
        lift(r, final(locals)@) == p_for_tail(tok.seq(), names(old(locals)@)),
        parse_post(r, tok.seq(), old(locals)@, final(locals)@),
    decreases tok.seq().len(), 19int,
{
    match expr_stmt(tok, locals) {
        Ok((i, cur)) => for_cond(i, cur, locals),
        Err(e) => Err(e),
    }
}

/// The rest of a `for` statement after its initialiser.
fn for_cond(i: Box<Node>, tok: Box<Token>, locals: &mut Vec<Obj>) -> (r: Result<(Box<Node>, Box<Token>), ParseError>)
    requires
        parse_pre(&tok, old(locals)@),
    ensures
        lift(r, final(locals)@) == p_for_cond(i.view(), tok.seq(), names(old(locals)@)),
        parse_post(r, tok.seq(), old(locals)@, final(locals)@),
    decreases tok.seq().len(), 18int,
{
    match opt_expr(tok, locals, ';') {
        Ok((c, cur)) => for_inc(i, c, cur, locals),
        Err(e) => Err(e),
    }
}

/// The rest of a `for` statement after its condition.
fn for_inc(i: Box<Node>, c: Option<Box<Node>>, tok: Box<Token>, locals: &mut Vec<Obj>) -> (r: Result<
    (Box<Node>, Box<Token>),
    ParseError,
>)
    requires
        parse_pre(&tok, old(locals)@),
    ensures
        lift(r, final(locals)@) == p_for_inc(
            i.view(),
            match c {
                Some(b) => Some(Box::new(b.view())),
                None => None,
            },
            tok.seq(),
            names(old(locals)@),
        ),
        parse_post(r, tok.seq(), old(locals)@, final(locals)@),
    decreases tok.seq().len(), 17int,
{
    let (n, cur) = match opt_expr(tok, locals, ')') {
        Ok(p) => p,
        Err(e) => return Err(e),
    };
    match stmt(cur, locals) {
        Ok((b, rest)) => Ok((Node::new_for(Some(i), c, n, b), rest)),
        Err(e) => Err(e),
    }
}

/// One statement; see `p_stmt` for the grammar.
#[verifier::rlimit(100)]
pub fn stmt(tok: Box<Token>, locals: &mut Vec<Obj>) -> (r: Result<(Box<Node>, Box<Token>), ParseError>)
    requires
        parse_pre(&tok, old(locals)@),
    ensures
        lift(r, final(locals)@) == p_stmt(tok.seq(), names(old(locals)@)),
        parse_post(r, tok.seq(), old(locals)@, final(locals)@),
    decreases tok.seq().len(), 16int,
{
    proof {
        lemma_seq_first(&tok);
        reveal_strlit(";");
        assert(";"@ =~= seq![';']);
        reveal_strlit("(");
        assert("("@ =~= seq!['(']);
    }
    let ghost ts = tok.seq();
    if tok.eq_punct("return") {
        proof {
            lemma_tokens_wf_drop(ts);
        }
        let (e, cur) = match expr(tok.next(), locals) {
            Ok(p) => p,
            Err(e) => return Err(e),
        };
        proof {
            lemma_seq_first(&cur);
        }
        return match cur.skip(';') {
            Ok(t) => Ok((Node::new_unary(NodeKind::Return, e), t)),
            Err(e) => Err(e),
        };
    }
    if tok.eq_punct("{") {
        proof {
            lemma_tokens_wf_drop(ts);
        }
        return compound_stmt(tok.next(), locals);
    }
    if tok.eq_punct("if") {
        proof {
            lemma_tokens_wf_drop(ts);
        }
        return match paren_cond(tok.next(), locals) {
            Ok((c, cur)) => if_tail(c, cur, locals),
            Err(e) => Err(e),
        };
    }
    if tok.eq_punct("for") {
        proof {
            lemma_tokens_wf_drop(ts);
        }
        let t1 = tok.next();
        proof {
            lemma_seq_first(&t1);
        }
        return match t1.skip('(') {
            Ok(t2) => for_tail(t2, locals),
            Err(e) => Err(e),
        };
    }
    if tok.eq_punct("while") {
        proof {
            lemma_tokens_wf_drop(ts);
        }
        let (c, cur) = match paren_cond(tok.next(), locals) {
            Ok(p) => p,
            Err(e) => return Err(e),
        };
        return match stmt(cur, locals) {
            Ok((b, rest)) => Ok((Node::new_for(None, Some(c), None, b), rest)),
            Err(e) => Err(e),
        };
    }
    expr_stmt(tok, locals)
}

/// `block-stmt = stmt* "}"`: a block node of the statements up to the closing brace.
pub fn compound_stmt(tok: Box<Token>, locals: &mut Vec<Obj>) -> (r: Result<(Box<Node>, Box<Token>), ParseError>)
    requires
        parse_pre(&tok, old(locals)@),
    ensures
        lift(r, final(locals)@) == lift_block(p_block(tok.seq(), names(old(locals)@))),
        parse_post(r, tok.seq(), old(locals)@, final(locals)@),
    decreases tok.seq().len(), 20int,
{
    let ghost ts0 = tok.seq();
    let ghost v0 = locals@;
    let mut stmts: Vec<Box<Node>> = Vec::new();
    let mut cur = tok;
    assert(prepend_stmts(Seq::empty(), p_block(ts0, names(v0))) == p_block(ts0, names(v0))) by {
        match p_block(ts0, names(v0)) {
            Ok((b, t, v)) => {
                assert(Seq::<Ast>::empty() + b =~= b);
            },
            Err(_) => {},
        }
    }
    assert(stmts@.map_values(|n: Box<Node>| n.view()) =~= Seq::<Ast>::empty());
    loop
        invariant
            p_block(ts0, names(v0)) == prepend_stmts(
                stmts@.map_values(|n: Box<Node>| n.view()),
                p_block(cur.seq(), names(locals@)),
            ),
            tokens_wf(cur.seq()),
            cur.seq().len() <= ts0.len(),
            locals_wf(locals@),
            locals.len() + cur.seq().len() <= v0.len() + ts0.len(),
            v0.len() + ts0.len() <= PARSE_LIMIT,
            ts0 == tok.seq(),
            v0 == old(locals)@,
        decreases cur.seq().len(),
    {
        proof {
            lemma_seq_first(&cur);
        }
        let ghost ts = cur.seq();
        let ghost before = stmts@.map_values(|n: Box<Node>| n.view());
        if cur.eq_punct("}") {
            proof {
                lemma_tokens_wf_drop(ts);
                assert(before + Seq::<Ast>::empty() =~= before);
            }
            let rest = cur.next();
            return Ok((Node::new_block(stmts), rest));
        }
        match stmt(cur, locals) {
            Ok((s, t)) => {
                proof {
                    match p_block(t.seq(), names(locals@)) {
                        Ok((b, r, v)) => {
                            assert(before + (seq![s.view()] + b) =~= (before + seq![s.view()]) + b);
                        },
                        Err(_) => {},
                    }
                }
                stmts.push(s);
                assert(stmts@.map_values(|n: Box<Node>| n.view()) =~= before + seq![s.view()]);
                cur = t;
            },
            Err(e) => return Err(e),
        }
    }
}

/// `function = "{" block-stmt`: the function's body, its variables in the order
/// of their first reference, and its frame size, the room they take rounded up to 16 bytes.
pub fn parse(tok: Box<Token>) -> (r: Result<Function, ParseError>)
    requires
        tokens_wf(tok.seq()),
        tok.seq().len() <= PARSE_LIMIT,
    ensures
        match r {
            Ok(f) => match p_function(tok.seq()) {
                Ok((b, vars)) => {
                    &&& f.body.view() == Ast::Block(b)
                    &&& names(f.locals@) == vars
                    &&& locals_wf(f.locals@)
                    &&& f.stack_size == align_up(8 * vars.len() as int, 16)
                },
                Err(_) => false,
            },
            Err(e) => p_function(tok.seq()) == Err::<(Seq<Ast>, Seq<Seq<char>>), ParseError>(e),
        },
{
    proof {
        lemma_seq_first(&tok);
        reveal_strlit("{");
        assert("{"@ =~= seq!['{']);
    }
    let cur = match tok.skip('{') {
        Ok(t) => t,
        Err(e) => return Err(e),
    };
    let mut locals: Vec<Obj> = Vec::new();
    assert(names(locals@) =~= Seq::<Seq<char>>::empty());
    match compound_stmt(cur, &mut locals) {
        Ok((body, _)) => {
            let stack_size = align_to(8 * locals.len() as i32, 16);
            Ok(Function { body, locals, stack_size })
        },
        Err(e) => Err(e),
    }
}

} // verus!
