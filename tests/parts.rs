use chibicc::node::{Node, NodeKind, Obj};
use chibicc::parse::{
    add, assign, compound_stmt, equality, expr, expr_stmt, find_var, get_offset, mul, primary,
    relational, resolve, stmt, unary, ParseError, ParseErrorKind,
};
use chibicc::token::{Token, TokenKind};
use chibicc::tokenize::{convert_keyword, is_ident1, is_ident2, is_keyword, tokenize};

fn punct(text: &str, location: usize) -> Token {
    let mut t = Token::new(TokenKind::Punct, location);
    t.string = Some(text.to_string());
    t
}

#[test]
fn token_new_and_push() {
    let mut a = punct("+", 0);
    let b = Token::new_token(TokenKind::Eof, 1);
    assert!(a.next.is_none());
    a.push(b);
    assert!(a.eq_punct("+"));
    assert!(!a.eq_punct("-"));
    let b = a.next();
    assert_eq!(b.kind, TokenKind::Eof);
    assert_eq!(b.location, 1);
}

#[test]
fn token_next_mut_changes_successor() {
    let mut a = punct("(", 0);
    a.push(Token::new_token(TokenKind::Num, 1));
    a.next_mut().num = Some(7);
    assert_eq!(a.next().get_number(), 7);
}

#[test]
fn token_skip() {
    let mut a = punct(";", 4);
    a.push(Token::new_token(TokenKind::Eof, 5));
    let rest = a.skip(';').unwrap();
    assert_eq!(rest.kind, TokenKind::Eof);
    let mut b = punct(")", 2);
    b.push(Token::new_token(TokenKind::Eof, 3));
    assert_eq!(b.skip(';').err(), Some(ParseError { location: 2, kind: ParseErrorKind::Expected(';') }));
}

#[test]
fn keyword_tokens_match_their_text() {
    let t = tokenize("return").unwrap();
    assert!(t.eq_punct("return"));
    let t = tokenize("returns").unwrap();
    assert!(!t.eq_punct("return"));
}

#[test]
fn text_comparison_ignores_kind() {
    let t = tokenize("foo").unwrap();
    assert_eq!(t.kind, TokenKind::Ident);
    assert!(t.eq_punct("foo"));
    assert!(!t.eq_punct("fo"));
    let n = tokenize("12").unwrap();
    assert!(!n.eq_punct("12"));
    let t = tokenize("x y").unwrap();
    assert_eq!(t.skip('x').unwrap().string, Some("y".to_string()));
}

#[test]
fn identifier_characters() {
    assert!(is_ident1('a') && is_ident1('Z') && is_ident1('_'));
    assert!(!is_ident1('1') && !is_ident1('$'));
    assert!(is_ident2('9') && is_ident2('q'));
    assert!(!is_ident2('-'));
}

#[test]
fn reserved_words() {
    for w in ["return", "if", "else", "for", "while"] {
        assert!(is_keyword(&w.to_string()));
    }
    assert!(!is_keyword(&"int".to_string()));
    assert!(!is_keyword(&"While".to_string()));
    let mut t = Token::new(TokenKind::Ident, 3);
    t.string = Some("for".to_string());
    assert_eq!(convert_keyword(t).kind, TokenKind::Keyword);
    let mut t = Token::new(TokenKind::Ident, 3);
    t.string = Some("fort".to_string());
    assert_eq!(convert_keyword(t).kind, TokenKind::Ident);
}

#[test]
fn node_constructors() {
    let n = Node::new_binary(NodeKind::Sub, Node::new_num(5), Node::new_num(2));
    assert!(n.kind == NodeKind::Sub);
    assert_eq!(n.lhs.as_ref().unwrap().num, Some(5));
    assert_eq!(n.rhs.as_ref().unwrap().num, Some(2));
    let u = Node::new_unary(NodeKind::Neg, Node::new_num(1));
    assert!(u.kind == NodeKind::Neg && u.rhs.is_none());
    let v = Node::new_var(Obj { name: "x".to_string(), offset: -8 });
    assert_eq!(v.var.as_ref().unwrap().offset, -8);
    let e = Node::new(NodeKind::Block);
    assert!(e.body.is_none() && e.kind == NodeKind::Block);
}

#[test]
fn block_chains_statements_in_order() {
    let s1 = Node::new_unary(NodeKind::ExprStmt, Node::new_num(1));
    let s2 = Node::new_unary(NodeKind::Return, Node::new_num(2));
    let b = Node::new_block(vec![s1, s2]);
    let first = b.body.unwrap();
    assert!(first.kind == NodeKind::ExprStmt);
    let mut first = *first;
    first.next_mut().kind = NodeKind::Return;
    let second = first.next();
    assert!(second.kind == NodeKind::Return);
    assert_eq!(second.lhs.as_ref().unwrap().num, Some(2));
    assert!(second.next.is_none());
}

#[test]
fn control_flow_constructors() {
    let i = Node::new_if(Node::new_num(1), Node::new(NodeKind::Block), None);
    assert!(i.kind == NodeKind::If && i.els.is_none() && i.cond.is_some());
    let f = Node::new_for(None, Some(Node::new_num(0)), None, Node::new(NodeKind::Block));
    assert!(f.kind == NodeKind::For && f.init.is_none() && f.cond.is_some());
}

#[test]
fn symbol_table_resolution() {
    let mut locals: Vec<Obj> = Vec::new();
    assert_eq!(get_offset(&locals), -8);
    let a = "a".to_string();
    let b = "b".to_string();
    assert_eq!(find_var(&locals, &a), None);
    assert_eq!(resolve(&mut locals, &a), -8);
    assert_eq!(resolve(&mut locals, &b), -16);
    assert_eq!(resolve(&mut locals, &a), -8);
    assert_eq!(locals.len(), 2);
    assert_eq!(find_var(&locals, &b), Some(-16));
    assert_eq!(get_offset(&locals), -24);
}

#[test]
fn grammar_levels() {
    let mut locals: Vec<Obj> = Vec::new();
    let (n, rest) = expr(tokenize("1+2*3;").unwrap(), &mut locals).unwrap();
    assert!(n.kind == NodeKind::Add);
    assert!(n.rhs.as_ref().unwrap().kind == NodeKind::Mul);
    assert!(rest.eq_punct(";"));
    let (n, _) = mul(tokenize("2*3+1").unwrap(), &mut locals).unwrap();
    assert!(n.kind == NodeKind::Mul);
    let (n, _) = add(tokenize("2-3-4").unwrap(), &mut locals).unwrap();
    assert!(n.kind == NodeKind::Sub && n.lhs.as_ref().unwrap().kind == NodeKind::Sub);
    let (n, _) = unary(tokenize("-x").unwrap(), &mut locals).unwrap();
    assert!(n.kind == NodeKind::Neg);
    let (n, _) = primary(tokenize("(y)").unwrap(), &mut locals).unwrap();
    assert!(n.kind == NodeKind::Var);
    assert_eq!(locals.len(), 2);
    let (n, _) = relational(tokenize("1>=2").unwrap(), &mut locals).unwrap();
    assert!(n.kind == NodeKind::Le && n.lhs.as_ref().unwrap().num == Some(2));
    let (n, _) = equality(tokenize("1!=2").unwrap(), &mut locals).unwrap();
    assert!(n.kind == NodeKind::Ne);
    let (n, _) = assign(tokenize("x=y=3").unwrap(), &mut locals).unwrap();
    assert!(n.kind == NodeKind::Assign && n.rhs.as_ref().unwrap().kind == NodeKind::Assign);
    assert_eq!(
        primary(tokenize("+").unwrap(), &mut locals).err(),
        Some(ParseError { location: 0, kind: ParseErrorKind::ExpectedExpression })
    );
}

#[test]
fn statement_levels() {
    let mut locals: Vec<Obj> = Vec::new();
    let (n, _) = expr_stmt(tokenize(";").unwrap(), &mut locals).unwrap();
    assert!(n.kind == NodeKind::Block && n.body.is_none());
    let (n, _) = stmt(tokenize("while (1) ;").unwrap(), &mut locals).unwrap();
    assert!(n.kind == NodeKind::For && n.init.is_none() && n.inc.is_none());
    let (n, _) = stmt(tokenize("for (i=0;;) i=1;").unwrap(), &mut locals).unwrap();
    assert!(n.kind == NodeKind::For && n.init.is_some() && n.cond.is_none());
    let (n, _) = stmt(tokenize("if (1) 2; else 3;").unwrap(), &mut locals).unwrap();
    assert!(n.kind == NodeKind::If && n.els.is_some());
    let (n, rest) = compound_stmt(tokenize("1; 2; } 9").unwrap(), &mut locals).unwrap();
    assert!(n.kind == NodeKind::Block);
    assert_eq!(rest.get_number(), 9);
}
