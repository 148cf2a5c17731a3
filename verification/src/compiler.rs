//! The two normalization passes over the tree: desugaring compound
//! assignment into primitive assignment, and flattening nested expressions
//! into three-address form with fresh temporaries.

use vstd::prelude::*;

use crate::CompilationError;
use crate::ast::{
    BinOp, ExprV, Expression, StmtV, Statement, clone_strings, expr_size, expr_view,
    lemma_exprs_view, lemma_stmts_view, stmt_size, stmt_view, stmts_size, stmts_view,
};
use crate::ast::{arith_only_expr, arith_only_stmt, is_atom, is_simple, assigns_simple, all_assigns_simple};
use crate::text::{is_reserved, lemma_temp_name_injective, lemma_temp_name_reserved, temp_name, temp_name_string};

verus! {

broadcast use lemma_exprs_view, lemma_stmts_view;

/// What desugaring makes of a statement list, element by element.
pub open spec fn desugar_stmts(l: Seq<StmtV>) -> Seq<StmtV>
    decreases l,
{
    if l.len() == 0 {
        Seq::empty()
    } else {
        seq![desugar_stmt(l[0])] + desugar_stmts(l.drop_first())
    }
}

/// How `desugar_stmts` reads by length and position.
pub broadcast proof fn lemma_desugar_stmts(l: Seq<StmtV>)
    ensures
        (#[trigger] desugar_stmts(l)).len() == l.len(),
        forall|i: int| 0 <= i < l.len() ==> desugar_stmts(l)[i] == desugar_stmt(l[i]),
    decreases l,
{
    if l.len() > 0 {
        lemma_desugar_stmts(l.drop_first());
    }
}

/// What desugaring makes of one statement: every compound assignment
/// becomes a primitive assignment whose expression applies the matching
/// binary operation to the old value of the target.
pub open spec fn desugar_stmt(s: StmtV) -> StmtV
    decreases s,
{
    match s {
        StmtV::Block(inner) => StmtV::Block(desugar_stmts(inner)),
        StmtV::AddAssign(name, e) => StmtV::Assign(
            name,
            ExprV::Binary(BinOp::Add, Box::new(ExprV::Identifier(name)), Box::new(e)),
        ),
        StmtV::SubAssign(name, e) => StmtV::Assign(
            name,
            ExprV::Binary(BinOp::Sub, Box::new(ExprV::Identifier(name)), Box::new(e)),
        ),
        StmtV::MulAssign(name, e) => StmtV::Assign(
            name,
            ExprV::Binary(BinOp::Mul, Box::new(ExprV::Identifier(name)), Box::new(e)),
        ),
        StmtV::DivAssign(name, e) => StmtV::Assign(
            name,
            ExprV::Binary(BinOp::Div, Box::new(ExprV::Identifier(name)), Box::new(e)),
        ),
        StmtV::FunctionDeclaration(name, params, body) => StmtV::FunctionDeclaration(
            name,
            params,
            Box::new(desugar_stmt(*body)),
        ),
        StmtV::SubroutineDeclaration(name, body) => StmtV::SubroutineDeclaration(
            name,
            Box::new(desugar_stmt(*body)),
        ),
        _ => s,
    }
}

/// What flattening makes of one expression, starting from temporary
/// counter `c`: the assignments to emit before the use site, the atomic
/// replacement expression, and the counter afterwards. Atoms flatten to
/// themselves; a binary operation flattens its left operand first, then
/// its right operand, then binds one fresh temporary to the operation over
/// the two atomic results. Calls, dereferences and indexing are not
/// reduced and pass through unchanged.
pub open spec fn flatten_expr(c: nat, e: ExprV) -> (Seq<StmtV>, ExprV, nat)
    decreases e,
{
    match e {
        ExprV::Binary(op, l, r) => {
            let (ls, la, c1) = flatten_expr(c, *l);
            let (rs, ra, c2) = flatten_expr(c1, *r);
            let t = temp_name(c2);
            (
                ls + rs + seq![StmtV::Assign(t, ExprV::Binary(op, Box::new(la), Box::new(ra)))],
                ExprV::Identifier(t),
                c2 + 1,
            )
        },
        _ => (Seq::empty(), e, c),
    }
}

/// What flattening makes of one statement: the replacement statements
/// (temporary assignments first, in evaluation order) and the counter
/// afterwards. Blocks and the block bodies of declarations are rewritten
/// in place; every other statement passes through unchanged.
pub open spec fn flatten_stmt(c: nat, s: StmtV) -> (Seq<StmtV>, nat)
    decreases s,
{
    match s {
        StmtV::Block(inner) => {
            let (l2, c2) = flatten_stmts(c, inner);
            (seq![StmtV::Block(l2)], c2)
        },
        StmtV::Assign(name, e) => {
            let (stmts, a, c2) = flatten_expr(c, e);
            (stmts.push(StmtV::Assign(name, a)), c2)
        },
        StmtV::FunctionDeclaration(name, params, body) => match *body {
            StmtV::Block(inner) => {
                let (l2, c2) = flatten_stmts(c, inner);
                (seq![StmtV::FunctionDeclaration(name, params, Box::new(StmtV::Block(l2)))], c2)
            },
            _ => (seq![s], c),
        },
        StmtV::SubroutineDeclaration(name, body) => match *body {
            StmtV::Block(inner) => {
                let (l2, c2) = flatten_stmts(c, inner);
                (seq![StmtV::SubroutineDeclaration(name, Box::new(StmtV::Block(l2)))], c2)
            },
            _ => (seq![s], c),
        },
        _ => (seq![s], c),
    }
}

/// What flattening makes of a statement list, threading the counter left
/// to right.
pub open spec fn flatten_stmts(c: nat, l: Seq<StmtV>) -> (Seq<StmtV>, nat)
    decreases l,
{
    if l.len() == 0 {
        (Seq::empty(), c)
    } else {
        let (f, c1) = flatten_stmt(c, l[0]);
        let (rest, c2) = flatten_stmts(c1, l.drop_first());
        (f + rest, c2)
    }
}

/// Flattening an expression never decreases the counter and raises it by
/// at most the number of binary operation nodes.
pub proof fn lemma_flatten_expr_growth(c: nat, e: ExprV)
    ensures
        c <= flatten_expr(c, e).2 <= c + expr_size(e),
    decreases e,
{
    match e {
        ExprV::Binary(op, l, r) => {
            lemma_flatten_expr_growth(c, *l);
            lemma_flatten_expr_growth(flatten_expr(c, *l).2, *r);
        },
        _ => {},
    }
}

/// Flattening a statement raises the counter by at most the statement's
/// count of binary operation nodes.
pub proof fn lemma_flatten_stmt_growth(c: nat, s: StmtV)
    ensures
        c <= flatten_stmt(c, s).1 <= c + stmt_size(s),
    decreases s,
{
    match s {
        StmtV::Block(inner) => lemma_flatten_stmts_growth(c, inner),
        StmtV::Assign(name, e) => lemma_flatten_expr_growth(c, e),
        StmtV::FunctionDeclaration(name, params, body) => {
            match *body {
                StmtV::Block(inner) => {
                    lemma_flatten_stmts_growth(c, inner);
                    assert(stmt_size(s) == stmt_size(*body));
                    assert(stmt_size(*body) == stmts_size(inner));
                },
                _ => {},
            }
        },
        StmtV::SubroutineDeclaration(name, body) => {
            match *body {
                StmtV::Block(inner) => {
                    lemma_flatten_stmts_growth(c, inner);
                    assert(stmt_size(s) == stmt_size(*body));
                    assert(stmt_size(*body) == stmts_size(inner));
                },
                _ => {},
            }
        },
        _ => {},
    }
}

/// Flattening a statement list raises the counter by at most the list's
/// count of binary operation nodes.
pub proof fn lemma_flatten_stmts_growth(c: nat, l: Seq<StmtV>)
    ensures
        c <= flatten_stmts(c, l).1 <= c + stmts_size(l),
    decreases l,
{
    if l.len() > 0 {
        lemma_flatten_stmt_growth(c, l[0]);
        lemma_flatten_stmts_growth(flatten_stmt(c, l[0]).1, l.drop_first());
    }
}

/// The per-compilation state of the flattening pass: the strictly
/// increasing counter naming the next temporary.
pub struct Context {
    pub temporary_counter: usize,
}

impl Context {
    /// A fresh context: temporary names start at index zero.
    pub fn new() -> (r: Self)
        ensures
            r.temporary_counter == 0,
    {
        Self { temporary_counter: 0 }
    }

    /// The next temporary name; the counter moves strictly upward, so no
    /// two calls within one compilation return the same name.
    pub fn new_temporary(&mut self) -> (r: String)
        requires
            old(self).temporary_counter < usize::MAX,
        ensures
            r@ == temp_name(old(self).temporary_counter as nat),
            final(self).temporary_counter == old(self).temporary_counter + 1,
    {
        let result = temp_name_string(self.temporary_counter);
        self.temporary_counter = self.temporary_counter + 1;
        result
    }
}

/// The binary expression with operator `op` over two given operands.
pub(crate) fn make_binary(op: BinOp, l: Expression, r: Expression) -> (res: Expression)
    requires
        op != BinOp::Index,
    ensures
        expr_view(res) == ExprV::Binary(op, Box::new(expr_view(l)), Box::new(expr_view(r))),
{
    match op {
        BinOp::Add => Expression::Add(Box::new(l), Box::new(r)),
        BinOp::Sub => Expression::Sub(Box::new(l), Box::new(r)),
        BinOp::Mul => Expression::Mul(Box::new(l), Box::new(r)),
        BinOp::Div => Expression::Div(Box::new(l), Box::new(r)),
        BinOp::Sll => Expression::Sll(Box::new(l), Box::new(r)),
        BinOp::Srl => Expression::Srl(Box::new(l), Box::new(r)),
        BinOp::Sra => Expression::Sra(Box::new(l), Box::new(r)),
        BinOp::BitAnd => Expression::BitAnd(Box::new(l), Box::new(r)),
        BinOp::BitOr => Expression::BitOr(Box::new(l), Box::new(r)),
        BinOp::BitXor => Expression::BitXor(Box::new(l), Box::new(r)),
        BinOp::Index => vstd::pervasive::unreached(),
    }
}

/// Desugars one statement.
#[verifier::loop_isolation(false)]
fn pass0_stmt(s: &Statement) -> (r: Statement)
    ensures
        stmt_view(r) == desugar_stmt(stmt_view(*s)),
    decreases s,
{
    match s {
        Statement::Block(inner) => {
            let mut out: Vec<Statement> = Vec::new();
            let mut i: usize = 0;
            while i < inner.len()
                invariant
                    i <= inner.len(),
                    out@.len() == i,
                    forall|j: int| 0 <= j < i ==> stmt_view(out@[j]) == desugar_stmt(stmt_view(inner@[j])),
                decreases inner.len() - i,
            {
                let d = pass0_stmt(&inner[i]);
                out.push(d);
                i = i + 1;
            }
            let r = Statement::Block(out);
            proof {
                lemma_desugar_stmts(stmts_view(inner@));
                assert(stmts_view(out@) =~= desugar_stmts(stmts_view(inner@)));
                assert(stmt_view(r) == desugar_stmt(stmt_view(*s)));
            }
            r
        },
        Statement::AddAssign(name, e) => {
            let target = Expression::Identifier(name.clone());
            proof {
                assert(expr_view(target) == ExprV::Identifier(name@));
            }
            let rhs = Expression::Add(Box::new(target), Box::new(e.clone()));
            let r = Statement::Assign(name.clone(), rhs);
            proof {
                assert(stmt_view(r) == desugar_stmt(stmt_view(*s)));
            }
            r
        },
        Statement::SubAssign(name, e) => {
            let target = Expression::Identifier(name.clone());
            proof {
                assert(expr_view(target) == ExprV::Identifier(name@));
            }
            let rhs = Expression::Sub(Box::new(target), Box::new(e.clone()));
            let r = Statement::Assign(name.clone(), rhs);
            proof {
                assert(stmt_view(r) == desugar_stmt(stmt_view(*s)));
            }
            r
        },
        Statement::MulAssign(name, e) => {
            let target = Expression::Identifier(name.clone());
            proof {
                assert(expr_view(target) == ExprV::Identifier(name@));
            }
            let rhs = Expression::Mul(Box::new(target), Box::new(e.clone()));
            let r = Statement::Assign(name.clone(), rhs);
            proof {
                assert(stmt_view(r) == desugar_stmt(stmt_view(*s)));
            }
            r
        },
        Statement::DivAssign(name, e) => {
            let target = Expression::Identifier(name.clone());
            proof {
                assert(expr_view(target) == ExprV::Identifier(name@));
            }
            let rhs = Expression::Div(Box::new(target), Box::new(e.clone()));
            let r = Statement::Assign(name.clone(), rhs);
            proof {
                assert(stmt_view(r) == desugar_stmt(stmt_view(*s)));
            }
            r
        },
        Statement::FunctionDeclaration(name, params, body) => Statement::FunctionDeclaration(
            name.clone(),
            clone_strings(params),
            Box::new(pass0_stmt(body)),
        ),
        Statement::SubroutineDeclaration(name, body) => Statement::SubroutineDeclaration(
            name.clone(),
            Box::new(pass0_stmt(body)),
        ),
        _ => s.clone(),
    }
}

/// Rewrites compound assignments into primitive assignments,
/// e.g. `a += 1` to `a = a + 1`. Total: it never reports an error.
pub fn ast_pass_0(ast: Statement) -> (r: Result<Statement, CompilationError>)
    ensures
        r is Ok,
        stmt_view(r->Ok_0) == desugar_stmt(stmt_view(ast)),
{
    Ok(pass0_stmt(&ast))
}

/// Flattens one expression, appending the needed temporary assignments to
/// `out` and returning the atomic replacement expression.
#[verifier::loop_isolation(false)]
fn flatten_into(context: &mut Context, e: &Expression, out: &mut Vec<Statement>) -> (a: Expression)
    requires
        old(context).temporary_counter + expr_size(expr_view(*e)) <= usize::MAX,
    ensures
        ({
            let (stmts, atom, c2) = flatten_expr(old(context).temporary_counter as nat, expr_view(*e));
            &&& stmts_view(final(out)@) == stmts_view(old(out)@) + stmts
            &&& expr_view(a) == atom
            &&& final(context).temporary_counter == c2
        }),
    decreases e,
{
    let parts: Option<(BinOp, &Expression, &Expression)> = match e {
        Expression::Add(l, r) => Some((BinOp::Add, &**l, &**r)),
        Expression::Sub(l, r) => Some((BinOp::Sub, &**l, &**r)),
        Expression::Mul(l, r) => Some((BinOp::Mul, &**l, &**r)),
        Expression::Div(l, r) => Some((BinOp::Div, &**l, &**r)),
        Expression::Sll(l, r) => Some((BinOp::Sll, &**l, &**r)),
        Expression::Srl(l, r) => Some((BinOp::Srl, &**l, &**r)),
        Expression::Sra(l, r) => Some((BinOp::Sra, &**l, &**r)),
        Expression::BitAnd(l, r) => Some((BinOp::BitAnd, &**l, &**r)),
        Expression::BitOr(l, r) => Some((BinOp::BitOr, &**l, &**r)),
        Expression::BitXor(l, r) => Some((BinOp::BitXor, &**l, &**r)),
        _ => None,
    };
    match parts {
        Some((op, l, r)) => {
            let ghost out0 = out@;
            proof {
                lemma_flatten_expr_growth(context.temporary_counter as nat, expr_view(*l));
            }
            let la = flatten_into(context, l, out);
            let ghost out1 = out@;
            proof {
                lemma_flatten_expr_growth(context.temporary_counter as nat, expr_view(*r));
            }
            let ra = flatten_into(context, r, out);
            let ghost out2 = out@;
            let t = context.new_temporary();
            let a = Expression::Identifier(t.clone());
            let mb = make_binary(op, la, ra);
            let pushed = Statement::Assign(t, mb);
            proof {
                assert(stmt_view(pushed) == StmtV::Assign(pushed->Assign_0@, expr_view(mb)));
            }
            out.push(pushed);
            proof {
                let c0 = old(context).temporary_counter as nat;
                let ev = expr_view(*e);
                assert(ev == ExprV::Binary(op, Box::new(expr_view(*l)), Box::new(expr_view(*r))));
                let (ls, la2, c1) = flatten_expr(c0, expr_view(*l));
                let (rs, ra2, c2x) = flatten_expr(c1, expr_view(*r));
                assert(flatten_expr(c0, ev).0 == ls + rs + seq![StmtV::Assign(temp_name(c2x), ExprV::Binary(op, Box::new(la2), Box::new(ra2)))]);
                assert(expr_view(la) == la2);
                assert(expr_view(ra) == ra2);
                assert(t@ == temp_name(c2x));
                let (stmts, atom, c2) = flatten_expr(old(context).temporary_counter as nat, expr_view(*e));
                let rhs = stmts_view(old(out)@) + stmts;
                assert(stmts_view(out1) == stmts_view(out0) + ls);
                assert(stmts_view(out2) == stmts_view(out1) + rs);
                assert(out@ == out2.push(pushed));
                assert(stmts_view(out@).len() == out2.len() + 1);
                assert(stmt_view(pushed) == StmtV::Assign(temp_name(c2x), ExprV::Binary(op, Box::new(la2), Box::new(ra2))));
                assert(stmts_view(out@).len() == rhs.len());
                assert forall|j: int| 0 <= j < rhs.len() implies stmts_view(out@)[j] == rhs[j] by {
                    assert(stmts_view(out@)[j] == stmt_view(out@[j]));
                    if j < out1.len() {
                        assert(out@[j] == out2[j]);
                        assert(stmts_view(out2)[j] == stmt_view(out2[j]));
                        assert(stmts_view(out2)[j] == stmts_view(out1)[j]);
                        assert(stmts_view(out@)[j] == stmts_view(out1)[j]);
                        assert(rhs[j] == (stmts_view(out0) + ls)[j]);
                    } else if j < out2.len() {
                        assert(out@[j] == out2[j]);
                        assert(stmts_view(out2)[j] == stmt_view(out2[j]));
                        assert(stmts_view(out@)[j] == stmts_view(out2)[j]);
                        assert(stmts_view(out2)[j] == rs[j - out1.len()]);
                        assert(rhs[j] == rs[j - out1.len()]);
                    } else {
                        assert(stmts_view(out@)[j] == stmt_view(pushed));
                        assert(rhs[j] == stmts[stmts.len() - 1]);
                    }
                }
                assert(stmts_view(out@) =~= rhs);
            }
            a
        },
        None => {
            proof {
                let (stmts, atom, c2) = flatten_expr(old(context).temporary_counter as nat, expr_view(*e));
                assert(stmts_view(out@) =~= stmts_view(old(out)@) + stmts);
            }
            e.clone()
        },
    }
}

/// Flattens one statement, appending its replacement statements to `out`.
#[verifier::loop_isolation(false)]
fn pass1_stmt_into(context: &mut Context, s: &Statement, out: &mut Vec<Statement>)
    requires
        old(context).temporary_counter + stmt_size(stmt_view(*s)) <= usize::MAX,
    ensures
        ({
            let (stmts, c2) = flatten_stmt(old(context).temporary_counter as nat, stmt_view(*s));
            &&& stmts_view(final(out)@) == stmts_view(old(out)@) + stmts
            &&& final(context).temporary_counter == c2
        }),
    decreases s,
{
    match s {
        Statement::Block(inner) => {
            let b = pass1_block(context, inner);
            let pushed = Statement::Block(b);
            proof {
                assert(stmt_view(pushed) == StmtV::Block(stmts_view(pushed->Block_0@)));
            }
            out.push(pushed);
            proof {
                let (stmts, c2) = flatten_stmt(old(context).temporary_counter as nat, stmt_view(*s));
                assert(stmts_view(out@) =~= stmts_view(old(out)@) + stmts);
            }
        },
        Statement::Assign(name, e) => {
            let ghost out0 = out@;
            let a = flatten_into(context, e, out);
            let ghost out1 = out@;
            let pushed = Statement::Assign(name.clone(), a);
            proof {
                assert(stmt_view(pushed) == StmtV::Assign(pushed->Assign_0@, expr_view(pushed->Assign_1)));
            }
            out.push(pushed);
            proof {
                let c0 = old(context).temporary_counter as nat;
                let (es, atom, c2e) = flatten_expr(c0, expr_view(*e));
                assert(stmts_view(out1) == stmts_view(out0) + es);
                assert(out@ == out1.push(pushed));
                assert(stmts_view(out@).len() == out1.len() + 1);
                assert(forall|j: int| 0 <= j < out1.len() ==> out@[j] == out1[j]);
                assert(forall|j: int| 0 <= j < out1.len() ==> stmts_view(out@)[j] == stmts_view(out1)[j]);
                assert(stmts_view(out@)[out1.len() as int] == stmt_view(pushed));
                let (stmts, c2) = flatten_stmt(c0, stmt_view(*s));
                assert(stmts == es.push(StmtV::Assign(name@, atom)));
                assert(stmt_view(pushed) == StmtV::Assign(name@, atom));
                let rhs = stmts_view(old(out)@) + stmts;
                assert(stmts_view(out@).len() == rhs.len());
                assert forall|j: int| 0 <= j < rhs.len() implies stmts_view(out@)[j] == rhs[j] by {
                    if j < out1.len() {
                        assert(stmts_view(out@)[j] == stmts_view(out1)[j]);
                        assert(rhs[j] == (stmts_view(out0) + es)[j]);
                    } else {
                        assert(stmts_view(out@)[j] == stmt_view(pushed));
                    }
                }
                assert(stmts_view(out@) =~= rhs);
            }
        },
        Statement::FunctionDeclaration(name, params, body) => {
            match &**body {
                Statement::Block(inner) => {
                    proof {
                        assert(stmt_view(**body) == StmtV::Block(stmts_view(inner@)));
                        assert(stmt_size(stmt_view(*s)) == stmt_size(stmt_view(**body)));
                    }
                    let b = pass1_block(context, inner);
                    let inner_block = Statement::Block(b);
                    proof {
                        assert(stmt_view(inner_block) == StmtV::Block(stmts_view(inner_block->Block_0@)));
                    }
                    let pushed = Statement::FunctionDeclaration(
                        name.clone(),
                        clone_strings(params),
                        Box::new(inner_block),
                    );
                    proof {
                        assert(stmt_view(pushed) == StmtV::FunctionDeclaration(
                            name@,
                            stmt_view(*s)->FunctionDeclaration_1,
                            Box::new(stmt_view(*pushed->FunctionDeclaration_2)),
                        ));
                    }
                    out.push(pushed);
                    proof {
                        let (stmts, c2) = flatten_stmt(old(context).temporary_counter as nat, stmt_view(*s));
                        assert(stmts_view(out@) =~= stmts_view(old(out)@) + stmts);
                    }
                },
                _ => {
                    out.push(s.clone());
                    proof {
                        let (stmts, c2) = flatten_stmt(old(context).temporary_counter as nat, stmt_view(*s));
                        assert(stmts_view(out@) =~= stmts_view(old(out)@) + stmts);
                    }
                },
            }
        },
        Statement::SubroutineDeclaration(name, body) => {
            match &**body {
                Statement::Block(inner) => {
                    proof {
                        assert(stmt_view(**body) == StmtV::Block(stmts_view(inner@)));
                        assert(stmt_size(stmt_view(*s)) == stmt_size(stmt_view(**body)));
                    }
                    let b = pass1_block(context, inner);
                    let inner_block = Statement::Block(b);
                    proof {
                        assert(stmt_view(inner_block) == StmtV::Block(stmts_view(inner_block->Block_0@)));
                    }
                    let pushed = Statement::SubroutineDeclaration(
                        name.clone(),
                        Box::new(inner_block),
                    );
                    proof {
                        assert(stmt_view(pushed) == StmtV::SubroutineDeclaration(
                            name@,
                            Box::new(stmt_view(*pushed->SubroutineDeclaration_1)),
                        ));
                    }
                    out.push(pushed);
                    proof {
                        let (stmts, c2) = flatten_stmt(old(context).temporary_counter as nat, stmt_view(*s));
                        assert(stmts_view(out@) =~= stmts_view(old(out)@) + stmts);
                    }
                },
                _ => {
                    out.push(s.clone());
                    proof {
                        let (stmts, c2) = flatten_stmt(old(context).temporary_counter as nat, stmt_view(*s));
                        assert(stmts_view(out@) =~= stmts_view(old(out)@) + stmts);
                    }
                },
            }
        },
        _ => {
            out.push(s.clone());
            proof {
                let (stmts, c2) = flatten_stmt(old(context).temporary_counter as nat, stmt_view(*s));
                assert(stmts_view(out@) =~= stmts_view(old(out)@) + stmts);
            }
        },
    }
}

/// Flattens the statements of one block, front to back.
#[verifier::loop_isolation(false)]
fn pass1_block(context: &mut Context, inner: &Vec<Statement>) -> (b: Vec<Statement>)
    requires
        old(context).temporary_counter + stmts_size(stmts_view(inner@)) <= usize::MAX,
    ensures
        ({
            let (stmts, c2) = flatten_stmts(old(context).temporary_counter as nat, stmts_view(inner@));
            &&& stmts_view(b@) == stmts
            &&& final(context).temporary_counter == c2
        }),
    decreases inner,
{
    let ghost l = stmts_view(inner@);
    let ghost c0 = old(context).temporary_counter as nat;
    let mut b: Vec<Statement> = Vec::new();
    let mut i: usize = 0;
    proof {
        assert(l.skip(0) =~= l);
        assert(stmts_view(b@) =~= Seq::<StmtV>::empty());
        assert(Seq::<StmtV>::empty() + flatten_stmts(c0, l).0 =~= flatten_stmts(c0, l).0);
    }
    while i < inner.len()
        invariant
            i <= inner.len(),
            context.temporary_counter + stmts_size(l.skip(i as int)) <= usize::MAX,
            stmts_view(b@) + flatten_stmts(context.temporary_counter as nat, l.skip(i as int)).0
                == flatten_stmts(c0, l).0,
            flatten_stmts(context.temporary_counter as nat, l.skip(i as int)).1
                == flatten_stmts(c0, l).1,
        decreases inner.len() - i,
    {
        proof {
            assert(l.skip(i as int)[0] == stmt_view(inner@[i as int]));
            assert(l.skip(i as int).drop_first() =~= l.skip(i as int + 1));
            lemma_flatten_stmt_growth(context.temporary_counter as nat, l.skip(i as int)[0]);
        }
        pass1_stmt_into(context, &inner[i], &mut b);
        i = i + 1;
    }
    proof {
        assert(l.skip(inner.len() as int) =~= Seq::<StmtV>::empty());
        assert(stmts_view(b@) + Seq::<StmtV>::empty() =~= stmts_view(b@));
    }
    b
}

/// Expands nested expressions into simple expressions,
/// e.g. `a = (x + y) + z;` to `__temp0 = x + y; __temp1 = __temp0 + z;
/// a = __temp1;`. Total: it never reports an error.
pub fn ast_pass_1(context: &mut Context, statements: Vec<Statement>) -> (r: Result<
    Vec<Statement>,
    CompilationError,
>)
    requires
        old(context).temporary_counter + stmts_size(stmts_view(statements@)) <= usize::MAX,
    ensures
        r is Ok,
        ({
            let (stmts, c2) = flatten_stmts(old(context).temporary_counter as nat, stmts_view(statements@));
            &&& stmts_view(r->Ok_0@) == stmts
            &&& final(context).temporary_counter == c2
        }),
{
    Ok(pass1_block(context, &statements))
}

/// Flattens one expression, returning the statements to execute first and
/// the atomic expression standing for the value.
pub fn flatten_expression(context: &mut Context, expression: Expression) -> (r: Result<
    (Vec<Statement>, Expression),
    CompilationError,
>)
    requires
        old(context).temporary_counter + expr_size(expr_view(expression)) <= usize::MAX,
    ensures
        r is Ok,
        ({
            let (stmts, atom, c2) = flatten_expr(old(context).temporary_counter as nat, expr_view(expression));
            &&& stmts_view(r->Ok_0.0@) == stmts
            &&& expr_view(r->Ok_0.1) == atom
            &&& final(context).temporary_counter == c2
        }),
{
    let mut out: Vec<Statement> = Vec::new();
    let a = flatten_into(context, &expression, &mut out);
    proof {
        assert(stmts_view(Seq::<Statement>::empty()) =~= Seq::<StmtV>::empty());
        let (stmts, atom, c2) = flatten_expr(old(context).temporary_counter as nat, expr_view(expression));
        assert(stmts_view(out@) =~= stmts);
    }
    Ok((out, a))
}

/// A repetition of the flattening rewrite, kept as the next pipeline
/// stage: it behaves exactly as `ast_pass_1`.
pub fn ast_pass_2(context: &mut Context, statements: Vec<Statement>) -> (r: Result<
    Vec<Statement>,
    CompilationError,
>)
    requires
        old(context).temporary_counter + stmts_size(stmts_view(statements@)) <= usize::MAX,
    ensures
        r is Ok,
        ({
            let (stmts, c2) = flatten_stmts(old(context).temporary_counter as nat, stmts_view(statements@));
            &&& stmts_view(r->Ok_0@) == stmts
            &&& final(context).temporary_counter == c2
        }),
{
    ast_pass_1(context, statements)
}

/// Runs the two normalization passes over a parsed tree with a fresh
/// temporary counter and returns the resulting statement list.
pub fn compile(ast: Statement) -> (r: Result<Vec<Statement>, CompilationError>)
    requires
        stmt_size(desugar_stmt(stmt_view(ast))) <= usize::MAX,
    ensures
        r is Ok,
        stmts_view(r->Ok_0@) == flatten_stmts(0, seq![desugar_stmt(stmt_view(ast))]).0,
{
    let mut context = Context::new();
    let desugared = match ast_pass_0(ast) {
        Ok(d) => d,
        Err(e) => {
            return Err(e);
        },
    };
    let mut statements: Vec<Statement> = Vec::new();
    statements.push(desugared);
    proof {
        let d = desugar_stmt(stmt_view(ast));
        assert(stmts_view(statements@) =~= seq![d]);
        assert(seq![d].drop_first() =~= Seq::<StmtV>::empty());
        assert(stmts_size(Seq::<StmtV>::empty()) == 0);
        assert(stmts_size(seq![d]) == stmt_size(d));
    }
    ast_pass_1(&mut context, statements)
}


/// Desugaring eliminates every compound-assignment variant: no
/// `AddAssign`, `SubAssign`, `MulAssign` or `DivAssign` remains anywhere
/// in the resulting tree.
pub proof fn lemma_desugar_no_compound(s: StmtV)
    ensures
        !crate::ast::has_compound(desugar_stmt(s)),
    decreases s,
{
    match s {
        StmtV::Block(inner) => {
            lemma_desugar_stmts_no_compound(inner);
            lemma_desugar_stmts(inner);
            let d = desugar_stmts(inner);
            assert(desugar_stmt(s) == StmtV::Block(d));
            assert(!crate::ast::has_compound(StmtV::Block(d)));
        },
        StmtV::FunctionDeclaration(name, params, body) => {
            lemma_desugar_no_compound(*body);
            assert(desugar_stmt(s) == StmtV::FunctionDeclaration(name, params, Box::new(desugar_stmt(*body))));
            assert(!crate::ast::has_compound(StmtV::FunctionDeclaration(name, params, Box::new(desugar_stmt(*body)))));
        },
        StmtV::SubroutineDeclaration(name, body) => {
            lemma_desugar_no_compound(*body);
            assert(!crate::ast::has_compound(StmtV::SubroutineDeclaration(name, Box::new(desugar_stmt(*body)))));
        },
        _ => {},
    }
}

/// Desugaring a statement list eliminates every compound assignment in
/// every element.
pub proof fn lemma_desugar_stmts_no_compound(l: Seq<StmtV>)
    ensures
        forall|i: int| 0 <= i < l.len() ==> !crate::ast::has_compound(#[trigger] desugar_stmts(l)[i]),
    decreases l,
{
    lemma_desugar_stmts(l);
    if l.len() > 0 {
        lemma_desugar_no_compound(l[0]);
        lemma_desugar_stmts_no_compound(l.drop_first());
        assert forall|i: int| 0 <= i < l.len() implies !crate::ast::has_compound(#[trigger] desugar_stmts(l)[i]) by {
            if i > 0 {
                lemma_desugar_stmts(l.drop_first());
                assert(desugar_stmts(l)[i] == desugar_stmts(l.drop_first())[i - 1]);
            }
        }
    }
}

/// Flattening an expression built from atoms and binary operations alone
/// yields an atomic replacement and emits only assignments of simple
/// expressions (one operation over atoms).
pub proof fn lemma_flatten_expr_simple(c: nat, e: ExprV)
    requires
        arith_only_expr(e),
    ensures
        is_atom(flatten_expr(c, e).1),
        forall|i: int| 0 <= i < flatten_expr(c, e).0.len()
            ==> assigns_simple(#[trigger] flatten_expr(c, e).0[i]),
    decreases e,
{
    match e {
        ExprV::Binary(op, l, r) => {
            let (ls, la, c1) = flatten_expr(c, *l);
            lemma_flatten_expr_simple(c, *l);
            lemma_flatten_expr_simple(c1, *r);
        },
        _ => {},
    }
}

/// Declaration bodies are blocks throughout the tree, as the parser
/// guarantees of every tree it produces.
pub open spec fn decl_bodies_blocks(s: StmtV) -> bool
    decreases s,
{
    match s {
        StmtV::Block(inner) => forall|i: int| 0 <= i < inner.len() ==> decl_bodies_blocks(#[trigger] inner[i]),
        StmtV::FunctionDeclaration(_, _, body) => *body is Block && decl_bodies_blocks(*body),
        StmtV::SubroutineDeclaration(_, body) => *body is Block && decl_bodies_blocks(*body),
        _ => true,
    }
}

/// After flattening, every `Assign` statement anywhere in the output
/// carries a simple expression: an atom, or one binary operation over
/// atoms. This holds of trees whose assignments are built from atoms and
/// binary operations (no call, dereference or indexing, which the pass
/// hands through untouched) and whose declaration bodies are blocks.
pub proof fn lemma_flatten_stmt_simple(c: nat, s: StmtV)
    requires
        arith_only_stmt(s),
        decl_bodies_blocks(s),
    ensures
        forall|i: int| 0 <= i < flatten_stmt(c, s).0.len()
            ==> assigns_simple(#[trigger] flatten_stmt(c, s).0[i]),
    decreases s,
{
    match s {
        StmtV::Block(inner) => {
            lemma_flatten_stmts_simple(c, inner);
            let (l2, c2) = flatten_stmts(c, inner);
            assert(assigns_simple(StmtV::Block(l2)));
        },
        StmtV::Assign(name, e) => {
            lemma_flatten_expr_simple(c, e);
            let (es, a, c2) = flatten_expr(c, e);
            assert(is_simple(a));
            assert(assigns_simple(StmtV::Assign(name, a)));
        },
        StmtV::FunctionDeclaration(name, params, body) => {
            match *body {
                StmtV::Block(inner) => {
                    assert(arith_only_stmt(*body));
                    assert(decl_bodies_blocks(*body));
                    assert(forall|i: int| 0 <= i < inner.len() ==> arith_only_stmt(#[trigger] inner[i]));
                    lemma_flatten_stmts_simple(c, inner);
                    let (l2, c2) = flatten_stmts(c, inner);
                    assert(assigns_simple(StmtV::Block(l2)));
                    assert(assigns_simple(StmtV::FunctionDeclaration(name, params, Box::new(StmtV::Block(l2)))));
                },
                _ => {
                    assert(assigns_simple(*body));
                },
            }
        },
        StmtV::SubroutineDeclaration(name, body) => {
            match *body {
                StmtV::Block(inner) => {
                    assert(arith_only_stmt(*body));
                    assert(decl_bodies_blocks(*body));
                    assert(forall|i: int| 0 <= i < inner.len() ==> arith_only_stmt(#[trigger] inner[i]));
                    lemma_flatten_stmts_simple(c, inner);
                    let (l2, c2) = flatten_stmts(c, inner);
                    assert(assigns_simple(StmtV::Block(l2)));
                    assert(assigns_simple(StmtV::SubroutineDeclaration(name, Box::new(StmtV::Block(l2)))));
                },
                _ => {
                    assert(assigns_simple(*body));
                },
            }
        },
        _ => {},
    }
}

/// The list form of `lemma_flatten_stmt_simple`.
pub proof fn lemma_flatten_stmts_simple(c: nat, l: Seq<StmtV>)
    requires
        forall|i: int| 0 <= i < l.len() ==> arith_only_stmt(#[trigger] l[i]),
        forall|i: int| 0 <= i < l.len() ==> decl_bodies_blocks(#[trigger] l[i]),
    ensures
        all_assigns_simple(flatten_stmts(c, l).0),
    decreases l,
{
    if l.len() > 0 {
        let (f, c1) = flatten_stmt(c, l[0]);
        lemma_flatten_stmt_simple(c, l[0]);
        lemma_flatten_stmts_simple(c1, l.drop_first());
        assert forall|i: int| 0 <= i < flatten_stmts(c, l).0.len()
            implies assigns_simple(#[trigger] flatten_stmts(c, l).0[i]) by {
            if i < f.len() {
                assert(flatten_stmts(c, l).0[i] == f[i]);
            } else {
                assert(flatten_stmts(c, l).0[i] == flatten_stmts(c1, l.drop_first()).0[i - f.len()]);
            }
        }
    }
}

/// A statement the flattening pass leaves alone: every assignment already
/// carries an atom or an unreduced (call, dereference, indexing)
/// expression, recursively through blocks and block-bodied declarations.
pub open spec fn stmt_unreducible(s: StmtV) -> bool
    decreases s,
{
    match s {
        StmtV::Block(inner) => forall|i: int| 0 <= i < inner.len() ==> stmt_unreducible(#[trigger] inner[i]),
        StmtV::Assign(_, e) => !(e is Binary),
        StmtV::FunctionDeclaration(_, _, body) => (*body is Block) ==> stmt_unreducible(*body),
        StmtV::SubroutineDeclaration(_, body) => (*body is Block) ==> stmt_unreducible(*body),
        _ => true,
    }
}

/// Flattening is the identity, and consumes no temporary names, exactly on
/// statements it has nothing to reduce. In particular a statement list
/// whose assignments all carry atoms re-flattens to itself, unchanged.
/// (A list that still assigns a binary operation gains a temporary on
/// every pass, so flattening is not idempotent on such lists.)
pub proof fn lemma_flatten_identity(c: nat, s: StmtV)
    requires
        stmt_unreducible(s),
    ensures
        flatten_stmt(c, s) == (seq![s], c),
    decreases s,
{
    match s {
        StmtV::Block(inner) => {
            lemma_flatten_stmts_identity(c, inner);
        },
        StmtV::Assign(name, e) => {
            assert(flatten_stmt(c, s).0 =~= seq![s]);
        },
        StmtV::FunctionDeclaration(name, params, body) => {
            match *body {
                StmtV::Block(inner) => {
                    assert(stmt_unreducible(*body));
                    lemma_flatten_stmts_identity(c, inner);
                },
                _ => {},
            }
        },
        StmtV::SubroutineDeclaration(name, body) => {
            match *body {
                StmtV::Block(inner) => {
                    assert(stmt_unreducible(*body));
                    lemma_flatten_stmts_identity(c, inner);
                },
                _ => {},
            }
        },
        _ => {},
    }
}

/// The list form of `lemma_flatten_identity`: re-flattening such a list is
/// a no-op.
pub proof fn lemma_flatten_stmts_identity(c: nat, l: Seq<StmtV>)
    requires
        forall|i: int| 0 <= i < l.len() ==> stmt_unreducible(#[trigger] l[i]),
    ensures
        flatten_stmts(c, l) == (l, c),
    decreases l,
{
    if l.len() > 0 {
        lemma_flatten_identity(c, l[0]);
        lemma_flatten_stmts_identity(c, l.drop_first());
        assert(flatten_stmts(c, l).0 =~= l);
    }
}

/// Temporary freshness: names generated within one compilation are
/// pairwise distinct (the counter moves strictly upward and the rendering
/// is injective), and none of them can equal a user identifier, provided
/// the user identifier does not itself start with the reserved prefix.
pub proof fn lemma_temporary_freshness(a: nat, b: nat, user: Seq<char>)
    ensures
        a != b ==> temp_name(a) != temp_name(b),
        !is_reserved(user) ==> user != temp_name(a),
{
    lemma_temp_name_injective(a, b);
    lemma_temp_name_reserved(a);
}

} // verus!
