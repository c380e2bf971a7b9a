//! Branch labels of generated code: each is defined once.
use vstd::prelude::*;
use crate::codegen::{
    Instr, LabelKind, gen_expr_spec, gen_stmt_spec, gen_block_spec, gen_opt_stmt_spec,
    gen_opt_cond_spec, gen_opt_expr_spec, binop_code,
};
use crate::node::{Ast, NodeKind};

verus! {

/// Every label of `code` has a number in `lo .. hi`.
pub open spec fn labels_within(code: Seq<Instr>, lo: int, hi: int) -> bool {
    forall|q: int| 0 <= q < code.len() ==> match #[trigger] code[q] {
        Instr::Label(_, n) => lo <= n < hi,
        _ => true,
    }
}

/// `code` does not define the label `(k, n)`.
pub open spec fn label_free(code: Seq<Instr>, k: LabelKind, n: u64) -> bool {
    forall|q: int| 0 <= q < code.len() ==> #[trigger] code[q] != Instr::Label(k, n)
}

/// No label is defined twice in `code`.
pub open spec fn labels_unique(code: Seq<Instr>) -> bool {
    forall|q: int| 0 <= q < code.len() ==> match #[trigger] code[q] {
        Instr::Label(k, n) => label_free(code.subrange(0, q), k, n),
        _ => true,
    }
}

proof fn lemma_within_append(a: Seq<Instr>, b: Seq<Instr>, lo: int, hi: int)
    requires
        labels_within(a, lo, hi),
        labels_within(b, lo, hi),
    ensures
        labels_within(a + b, lo, hi),
{
    assert forall|q: int| 0 <= q < (a + b).len() implies match #[trigger] (a + b)[q] {
        Instr::Label(_, n) => lo <= n < hi,
        _ => true,
    } by {
        if q < a.len() {
            assert((a + b)[q] == a[q]);
        } else {
            assert((a + b)[q] == b[q - a.len()]);
        }
    }
}

proof fn lemma_within_widen(a: Seq<Instr>, lo: int, hi: int, lo2: int, hi2: int)
    requires
        labels_within(a, lo, hi),
        lo2 <= lo,
        hi <= hi2,
    ensures
        labels_within(a, lo2, hi2),
{
    assert forall|q: int| 0 <= q < a.len() implies match #[trigger] a[q] {
        Instr::Label(_, n) => lo2 <= n < hi2,
        _ => true,
    } by {
        match a[q] {
            Instr::Label(_, n) => {},
            _ => {},
        }
    }
}

proof fn lemma_free_from_range(a: Seq<Instr>, lo: int, hi: int, k: LabelKind, n: u64)
    requires
        labels_within(a, lo, hi),
        !(lo <= n < hi),
    ensures
        label_free(a, k, n),
{
    assert forall|q: int| 0 <= q < a.len() implies #[trigger] a[q] != Instr::Label(k, n) by {
        match a[q] {
            Instr::Label(_, _) => {},
            _ => {},
        }
    }
}

/// Appending `b` to `a` keeps labels unique where `a` defines none of `b`'s labels.
proof fn lemma_unique_append(a: Seq<Instr>, b: Seq<Instr>)
    requires
        labels_unique(a),
        labels_unique(b),
        forall|q: int| 0 <= q < b.len() ==> match #[trigger] b[q] {
            Instr::Label(k, n) => label_free(a, k, n),
            _ => true,
        },
    ensures
        labels_unique(a + b),
{
    let ab = a + b;
    assert forall|q: int| 0 <= q < ab.len() implies match #[trigger] ab[q] {
        Instr::Label(k, n) => label_free(ab.subrange(0, q), k, n),
        _ => true,
    } by {
        if q < a.len() {
            assert(ab[q] == a[q]);
            assert(ab.subrange(0, q) =~= a.subrange(0, q));
        } else {
            let j = q - a.len();
            assert(ab[q] == b[j]);
            match b[j] {
                Instr::Label(k, n) => {
                    assert forall|r: int| 0 <= r < q implies #[trigger] ab.subrange(0, q)[r]
                        != Instr::Label(k, n) by {
                        if r < a.len() {
                            assert(ab.subrange(0, q)[r] == a[r]);
                        } else {
                            assert(ab.subrange(0, q)[r] == b.subrange(0, j)[r - a.len()]);
                        }
                    }
                },
                _ => {},
            }
        }
    }
}

proof fn lemma_no_labels(a: Seq<Instr>)
    requires
        forall|q: int| 0 <= q < a.len() ==> !(#[trigger] a[q] is Label),
    ensures
        labels_unique(a),
        forall|lo: int, hi: int| labels_within(a, lo, hi),
{
    assert forall|lo: int, hi: int| labels_within(a, lo, hi) by {
        assert forall|q: int| 0 <= q < a.len() implies match #[trigger] a[q] {
            Instr::Label(_, n) => lo <= n < hi,
            _ => true,
        } by {
            assert(!(a[q] is Label));
        }
    }
}

/// The code of an expression defines no label.
pub proof fn lemma_expr_no_labels(e: Ast)
    requires
        gen_expr_spec(e) is Ok,
    ensures
        forall|q: int| 0 <= q < gen_expr_spec(e)->Ok_0.len() ==> !(#[trigger] gen_expr_spec(e)->Ok_0[q] is Label),
    decreases e,
{
    let c = gen_expr_spec(e)->Ok_0;
    match e {
        Ast::Unary(_, x) => {
            lemma_expr_no_labels(*x);
            let cx = gen_expr_spec(*x)->Ok_0;
            assert forall|q: int| 0 <= q < c.len() implies !(#[trigger] c[q] is Label) by {
                if q < cx.len() {
                    assert(c[q] == cx[q]);
                }
            }
        },
        Ast::Binary(k, l, r) => {
            if k == NodeKind::Assign {
                lemma_expr_no_labels(*r);
                let cr = gen_expr_spec(*r)->Ok_0;
                assert forall|q: int| 0 <= q < c.len() implies !(#[trigger] c[q] is Label) by {
                    if 2 <= q < 2 + cr.len() {
                        assert(c[q] == cr[q - 2]);
                    }
                }
            } else {
                lemma_expr_no_labels(*l);
                lemma_expr_no_labels(*r);
                let cr = gen_expr_spec(*r)->Ok_0;
                let cl = gen_expr_spec(*l)->Ok_0;
                assert forall|q: int| 0 <= q < c.len() implies !(#[trigger] c[q] is Label) by {
                    if q < cr.len() {
                        assert(c[q] == cr[q]);
                    } else if cr.len() + 1 <= q < cr.len() + 1 + cl.len() {
                        assert(c[q] == cl[q - cr.len() - 1]);
                    }
                }
            }
        },
        _ => {},
    }
}

proof fn lemma_free_append(a: Seq<Instr>, b: Seq<Instr>, k: LabelKind, n: u64)
    requires
        label_free(a, k, n),
        label_free(b, k, n),
    ensures
        label_free(a + b, k, n),
{
    assert forall|q: int| 0 <= q < (a + b).len() implies #[trigger] (a + b)[q] != Instr::Label(k, n) by {
        if q < a.len() {
            assert((a + b)[q] == a[q]);
        } else {
            assert((a + b)[q] == b[q - a.len()]);
        }
    }
}

/// Two pieces whose label numbers lie in disjoint ranges.
proof fn lemma_append_disjoint(a: Seq<Instr>, b: Seq<Instr>, lo1: int, hi1: int, lo2: int, hi2: int)
    requires
        labels_unique(a),
        labels_unique(b),
        labels_within(a, lo1, hi1),
        labels_within(b, lo2, hi2),
        hi1 <= lo2 || hi2 <= lo1,
        lo1 <= hi1,
        lo2 <= hi2,
    ensures
        labels_unique(a + b),
        labels_within(a + b, if lo1 < lo2 { lo1 } else { lo2 }, if hi1 < hi2 { hi2 } else { hi1 }),
{
    assert forall|q: int| 0 <= q < b.len() implies match #[trigger] b[q] {
        Instr::Label(k, n) => label_free(a, k, n),
        _ => true,
    } by {
        match b[q] {
            Instr::Label(k, n) => lemma_free_from_range(a, lo1, hi1, k, n),
            _ => {},
        }
    }
    lemma_unique_append(a, b);
    let lo = if lo1 < lo2 { lo1 } else { lo2 };
    let hi = if hi1 < hi2 { hi2 } else { hi1 };
    lemma_within_widen(a, lo1, hi1, lo, hi);
    lemma_within_widen(b, lo2, hi2, lo, hi);
    lemma_within_append(a, b, lo, hi);
}

/// A piece that defines the one label `(k, n)`, or none.
proof fn lemma_small_piece(a: Seq<Instr>, k: LabelKind, n: u64)
    requires
        forall|q: int| 0 <= q < a.len() ==> (#[trigger] a[q] is Label ==> a[q] == Instr::Label(k, n)),
        forall|q: int, r: int| 0 <= q < r < a.len() ==> !(#[trigger] a[q] is Label && #[trigger] a[r] is Label),
    ensures
        labels_unique(a),
        labels_within(a, n as int, n + 1),
{
    assert forall|q: int| 0 <= q < a.len() implies match #[trigger] a[q] {
        Instr::Label(k2, n2) => label_free(a.subrange(0, q), k2, n2),
        _ => true,
    } by {
        if a[q] is Label {
            assert forall|r: int| 0 <= r < q implies #[trigger] a.subrange(0, q)[r] != a[q] by {
                assert(a.subrange(0, q)[r] == a[r]);
            }
        }
    }
}

/// The code of a statement defines its labels once each, numbered from `l` up to
/// the next free number.
pub proof fn lemma_stmt_labels(a: Ast, l: int)
    requires
        0 <= l,
        gen_stmt_spec(a, l) is Ok,
    ensures
        ({
            let (c, l2) = gen_stmt_spec(a, l)->Ok_0;
            l <= l2 && labels_within(c, l, l2) && labels_unique(c)
        }),
    decreases a, 1int,
{
    match a {
        Ast::Unary(k, e) => {
            lemma_expr_no_labels(*e);
            let ce = gen_expr_spec(*e)->Ok_0;
            let c = gen_stmt_spec(a, l)->Ok_0.0;
            assert forall|q: int| 0 <= q < c.len() implies !(#[trigger] c[q] is Label) by {
                if q < ce.len() {
                    assert(c[q] == ce[q]);
                }
            }
            lemma_no_labels(c);
        },
        Ast::Block(ss) => lemma_block_labels(ss, l),
        Ast::If(cnd, t, e) => {
            let lb = l as u64;
            let cc = gen_expr_spec(*cnd)->Ok_0;
            let (ct, l2) = gen_stmt_spec(*t, l + 1)->Ok_0;
            let (ce, l3) = gen_opt_stmt_spec(e, l2)->Ok_0;
            let j1 = seq![Instr::CmpZero, Instr::Je(LabelKind::Else, lb)];
            let j2 = seq![Instr::Jmp(LabelKind::End, lb), Instr::Label(LabelKind::Else, lb)];
            let j3 = seq![Instr::Label(LabelKind::End, lb)];
            lemma_expr_no_labels(*cnd);
            let x0 = cc + j1;
            assert forall|q: int| 0 <= q < x0.len() implies !(#[trigger] x0[q] is Label) by {
                if q < cc.len() {
                    assert(x0[q] == cc[q]);
                }
            }
            lemma_no_labels(x0);
            lemma_stmt_labels(*t, l + 1);
            match e {
                Some(x) => lemma_stmt_labels(*x, l2),
                None => {
                    assert(ce =~= Seq::<Instr>::empty());
                    lemma_no_labels(ce);
                },
            }
            lemma_small_piece(j2, LabelKind::Else, lb);
            lemma_small_piece(j3, LabelKind::End, lb);
            lemma_append_disjoint(x0, ct, l + 1, l + 1, l + 1, l2);
            let x1 = x0 + ct;
            lemma_append_disjoint(x1, j2, l + 1, l2, l, l + 1);
            let x2 = x1 + j2;
            lemma_append_disjoint(x2, ce, l, l2, l2, l3);
            let x3 = x2 + ce;
            lemma_free_from_range(x1, l + 1, l2, LabelKind::End, lb);
            assert(label_free(j2, LabelKind::End, lb));
            lemma_free_from_range(ce, l2, l3, LabelKind::End, lb);
            lemma_free_append(x1, j2, LabelKind::End, lb);
            lemma_free_append(x2, ce, LabelKind::End, lb);
            assert forall|q: int| 0 <= q < j3.len() implies match #[trigger] j3[q] {
                Instr::Label(k, n) => label_free(x3, k, n),
                _ => true,
            } by {}
            lemma_unique_append(x3, j3);
            lemma_within_widen(j3, l, l + 1, l, l3);
            lemma_within_append(x3, j3, l, l3);
            assert(gen_stmt_spec(a, l)->Ok_0.0 == x3 + j3);
        },
        Ast::For(i, cnd, n, b) => {
            let lb = l as u64;
            let (ci, l2) = gen_opt_stmt_spec(i, l + 1)->Ok_0;
            let cc = gen_opt_cond_spec(cnd, l)->Ok_0;
            let (cb, l3) = gen_stmt_spec(*b, l2)->Ok_0;
            let cn = gen_opt_expr_spec(n)->Ok_0;
            let j1 = seq![Instr::Label(LabelKind::Begin, lb)];
            let j2 = seq![Instr::Jmp(LabelKind::Begin, lb), Instr::Label(LabelKind::End, lb)];
            match i {
                Some(x) => lemma_stmt_labels(*x, l + 1),
                None => {
                    assert(ci =~= Seq::<Instr>::empty());
                    lemma_no_labels(ci);
                },
            }
            match cnd {
                Some(x) => {
                    lemma_expr_no_labels(*x);
                    let ce = gen_expr_spec(*x)->Ok_0;
                    assert forall|q: int| 0 <= q < cc.len() implies !(#[trigger] cc[q] is Label) by {
                        if q < ce.len() {
                            assert(cc[q] == ce[q]);
                        }
                    }
                },
                None => {},
            }
            lemma_no_labels(cc);
            match n {
                Some(x) => lemma_expr_no_labels(*x),
                None => {},
            }
            lemma_no_labels(cn);
            lemma_stmt_labels(*b, l2);
            lemma_small_piece(j1, LabelKind::Begin, lb);
            lemma_small_piece(j2, LabelKind::End, lb);
            lemma_append_disjoint(ci, j1, l + 1, l2, l, l + 1);
            let x1 = ci + j1;
            lemma_append_disjoint(x1, cc, l, l2, l2, l2);
            let x2 = x1 + cc;
            lemma_append_disjoint(x2, cb, l, l2, l2, l3);
            let x3 = x2 + cb;
            lemma_append_disjoint(x3, cn, l, l3, l3, l3);
            let x4 = x3 + cn;
            lemma_free_from_range(ci, l + 1, l2, LabelKind::End, lb);
            assert(label_free(j1, LabelKind::End, lb));
            lemma_free_from_range(cc, l2, l2, LabelKind::End, lb);
            lemma_free_from_range(cb, l2, l3, LabelKind::End, lb);
            lemma_free_from_range(cn, l3, l3, LabelKind::End, lb);
            lemma_free_append(ci, j1, LabelKind::End, lb);
            lemma_free_append(x1, cc, LabelKind::End, lb);
            lemma_free_append(x2, cb, LabelKind::End, lb);
            lemma_free_append(x3, cn, LabelKind::End, lb);
            assert forall|q: int| 0 <= q < j2.len() implies match #[trigger] j2[q] {
                Instr::Label(k, m) => label_free(x4, k, m),
                _ => true,
            } by {}
            lemma_unique_append(x4, j2);
            lemma_within_widen(j2, l, l + 1, l, l3);
            lemma_within_widen(x4, l, l3, l, l3);
            lemma_within_append(x4, j2, l, l3);
            assert(gen_stmt_spec(a, l)->Ok_0.0 == x4 + j2);
        },
        _ => {},
    }
}

/// The code of a sequence of statements defines its labels once each.
pub proof fn lemma_block_labels(ss: Seq<Ast>, l: int)
    requires
        0 <= l,
        gen_block_spec(ss, l) is Ok,
    ensures
        ({
            let (c, l2) = gen_block_spec(ss, l)->Ok_0;
            l <= l2 && labels_within(c, l, l2) && labels_unique(c)
        }),
    decreases ss, 0int,
{
    if ss.len() == 0 {
        lemma_no_labels(Seq::<Instr>::empty());
    } else {
        let (c1, l2) = gen_stmt_spec(ss[0], l)->Ok_0;
        let (c2, l3) = gen_block_spec(ss.drop_first(), l2)->Ok_0;
        lemma_stmt_labels(ss[0], l);
        lemma_block_labels(ss.drop_first(), l2);
        lemma_append_disjoint(c1, c2, l, l2, l2, l3);
    }
}

/// In code whose labels are unique, a label stands at one position only.
pub proof fn lemma_label_only_at(code: Seq<Instr>, p: int, q: int)
    requires
        labels_unique(code),
        0 <= p < code.len(),
        0 <= q < code.len(),
        code[p] is Label,
        p != q,
    ensures
        code[q] != code[p],
{
    if q < p {
        assert(code.subrange(0, p)[q] == code[q]);
    } else {
        assert(code.subrange(0, q)[p] == code[p]);
    }
}

} // verus!
