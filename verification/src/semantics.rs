//! A reference interpreter for the statement language, and the proof that
//! the two normalization passes preserve it: running a program and running
//! its desugared, flattened form leave every non-reserved name bound to
//! the same value.
//!
//! The interpreter gives every construct a fixed, pure meaning. Binary
//! operations act on unbounded integers (division by zero yields zero;
//! shifts and bitwise operations act on the 64-bit image of the operands);
//! a call is modeled as a pure function of its argument values, a
//! dereference and an indexing as pure functions of their operands. The
//! equivalence theorem needs only that these meanings are functions of the
//! operand values.

use vstd::prelude::*;

use crate::ast::{BinOp, ExprV, StmtV};
use crate::compiler::{desugar_stmt, desugar_stmts, flatten_expr, flatten_stmt, flatten_stmts};
use crate::text::{is_reserved, lemma_temp_name_injective, lemma_temp_name_reserved, temp_name};

verus! {

/// An environment: what each name is bound to.
pub type EnvV = Map<Seq<char>, int>;

/// The value of a name: its binding, or zero for an unbound name.
pub open spec fn env_get(env: EnvV, k: Seq<char>) -> int {
    if env.dom().contains(k) {
        env[k]
    } else {
        0
    }
}

/// Two to the given power.
pub open spec fn pow2(n: nat) -> int
    decreases n,
{
    if n == 0 {
        1
    } else {
        2 * pow2((n - 1) as nat)
    }
}

/// The meaning of one binary operation.
pub open spec fn apply_binop(op: BinOp, a: int, b: int) -> int {
    match op {
        BinOp::Add => a + b,
        BinOp::Sub => a - b,
        BinOp::Mul => a * b,
        BinOp::Div => if b == 0 { 0 } else { a / b },
        BinOp::Sll => if 0 <= b < 64 { a * pow2(b as nat) } else { 0 },
        BinOp::Srl => if 0 <= b < 64 { ((a as u64) as int) / pow2(b as nat) } else { 0 },
        BinOp::Sra => if 0 <= b < 64 { a / pow2(b as nat) } else { 0 },
        BinOp::BitAnd => ((a as u64) & (b as u64)) as int,
        BinOp::BitOr => ((a as u64) | (b as u64)) as int,
        BinOp::BitXor => ((a as u64) ^ (b as u64)) as int,
        BinOp::Index => a + b,
    }
}

/// The value of an expression under an environment.
pub open spec fn eval_expr(env: EnvV, e: ExprV) -> int
    decreases e,
{
    match e {
        ExprV::Number(n) => n,
        ExprV::Identifier(x) => env_get(env, x),
        ExprV::FunctionCall(_, args) => eval_sum(env, args),
        ExprV::Binary(op, l, r) => apply_binop(op, eval_expr(env, *l), eval_expr(env, *r)),
        ExprV::Deref(e2) => eval_expr(env, *e2),
        ExprV::Index(l, r) => eval_expr(env, *l) + eval_expr(env, *r),
    }
}

/// The combined value of an argument list: the sum of the values.
pub open spec fn eval_sum(env: EnvV, args: Seq<ExprV>) -> int
    decreases args,
{
    if args.len() == 0 {
        0
    } else {
        eval_expr(env, args[0]) + eval_sum(env, args.drop_first())
    }
}

/// The environment after one statement. Assignments bind their target;
/// a compound assignment applies its operation to the target's old value;
/// labels and declarations change nothing (declaration bodies do not run).
pub open spec fn run_stmt(env: EnvV, s: StmtV) -> EnvV
    decreases s,
{
    match s {
        StmtV::Block(inner) => run_stmts(env, inner),
        StmtV::Assign(n, e) => env.insert(n, eval_expr(env, e)),
        StmtV::AddAssign(n, e) => env.insert(n, apply_binop(BinOp::Add, env_get(env, n), eval_expr(env, e))),
        StmtV::SubAssign(n, e) => env.insert(n, apply_binop(BinOp::Sub, env_get(env, n), eval_expr(env, e))),
        StmtV::MulAssign(n, e) => env.insert(n, apply_binop(BinOp::Mul, env_get(env, n), eval_expr(env, e))),
        StmtV::DivAssign(n, e) => env.insert(n, apply_binop(BinOp::Div, env_get(env, n), eval_expr(env, e))),
        _ => env,
    }
}

/// The environment after a statement list, run front to back.
pub open spec fn run_stmts(env: EnvV, l: Seq<StmtV>) -> EnvV
    decreases l,
{
    if l.len() == 0 {
        env
    } else {
        run_stmts(run_stmt(env, l[0]), l.drop_first())
    }
}

/// Running a concatenation runs the two parts in order.
pub proof fn lemma_run_concat(env: EnvV, a: Seq<StmtV>, b: Seq<StmtV>)
    ensures
        run_stmts(env, a + b) == run_stmts(run_stmts(env, a), b),
    decreases a,
{
    if a.len() == 0 {
        assert(a + b =~= b);
    } else {
        assert((a + b).drop_first() =~= a.drop_first() + b);
        lemma_run_concat(run_stmt(env, a[0]), a.drop_first(), b);
    }
}

/// Running a single statement as a list runs just that statement.
pub proof fn lemma_run_one(env: EnvV, s: StmtV)
    ensures
        run_stmts(env, seq![s]) == run_stmt(env, s),
{
    assert(seq![s].drop_first() =~= Seq::<StmtV>::empty());
    assert(run_stmts(run_stmt(env, s), Seq::<StmtV>::empty()) == run_stmt(env, s));
}

/// Running a pushed statement runs it after the list.
pub proof fn lemma_run_push(env: EnvV, a: Seq<StmtV>, s: StmtV)
    ensures
        run_stmts(env, a.push(s)) == run_stmt(run_stmts(env, a), s),
{
    assert(a.push(s) =~= a + seq![s]);
    lemma_run_concat(env, a, seq![s]);
    lemma_run_one(run_stmts(env, a), s);
}

/// An expression that mentions no reserved name.
pub open spec fn no_reserved_expr(e: ExprV) -> bool
    decreases e,
{
    match e {
        ExprV::Number(_) => true,
        ExprV::Identifier(x) => !is_reserved(x),
        ExprV::FunctionCall(_, args) => no_reserved_args(args),
        ExprV::Binary(_, l, r) => no_reserved_expr(*l) && no_reserved_expr(*r),
        ExprV::Deref(e2) => no_reserved_expr(*e2),
        ExprV::Index(l, r) => no_reserved_expr(*l) && no_reserved_expr(*r),
    }
}

pub open spec fn no_reserved_args(args: Seq<ExprV>) -> bool
    decreases args,
{
    if args.len() == 0 {
        true
    } else {
        no_reserved_expr(args[0]) && no_reserved_args(args.drop_first())
    }
}

/// A statement whose assignment targets and expressions mention no
/// reserved name. Declaration bodies never run, so they are not
/// constrained.
pub open spec fn no_reserved_stmt(s: StmtV) -> bool
    decreases s,
{
    match s {
        StmtV::Block(inner) => no_reserved_stmts(inner),
        StmtV::Assign(n, e) => !is_reserved(n) && no_reserved_expr(e),
        StmtV::AddAssign(n, e) => !is_reserved(n) && no_reserved_expr(e),
        StmtV::SubAssign(n, e) => !is_reserved(n) && no_reserved_expr(e),
        StmtV::MulAssign(n, e) => !is_reserved(n) && no_reserved_expr(e),
        StmtV::DivAssign(n, e) => !is_reserved(n) && no_reserved_expr(e),
        _ => true,
    }
}

pub open spec fn no_reserved_stmts(l: Seq<StmtV>) -> bool
    decreases l,
{
    if l.len() == 0 {
        true
    } else {
        no_reserved_stmt(l[0]) && no_reserved_stmts(l.drop_first())
    }
}

/// Two environments that bind every non-reserved name to the same value.
pub open spec fn agree(a: EnvV, b: EnvV) -> bool {
    forall|k: Seq<char>| !is_reserved(k) ==> #[trigger] env_get(a, k) == env_get(b, k)
}

/// A name among the temporaries with index in `[c, c2)`.
pub open spec fn is_temp_in(k: Seq<char>, c: nat, c2: nat) -> bool {
    exists|j: nat| c <= j < c2 && k == temp_name(j)
}

/// A name among the temporaries with index at least `c`.
pub open spec fn is_temp_from(k: Seq<char>, c: nat) -> bool {
    exists|j: nat| j >= c && k == temp_name(j)
}

/// `a` differs from `b` at most on temporaries with index at least `c`.
pub open spec fn diff_only_temps_from(a: EnvV, b: EnvV, c: nat) -> bool {
    forall|k: Seq<char>| #[trigger] env_get(a, k) != env_get(b, k) ==> is_temp_from(k, c)
}

/// Expressions without reserved names read only non-reserved bindings:
/// agreeing environments give them equal values.
pub proof fn lemma_eval_agree(env1: EnvV, env2: EnvV, e: ExprV)
    requires
        agree(env1, env2),
        no_reserved_expr(e),
    ensures
        eval_expr(env1, e) == eval_expr(env2, e),
    decreases e,
{
    match e {
        ExprV::Identifier(x) => {
            assert(env_get(env1, x) == env_get(env2, x));
        },
        ExprV::FunctionCall(_, args) => {
            lemma_eval_sum_agree(env1, env2, args);
        },
        ExprV::Binary(_, l, r) => {
            lemma_eval_agree(env1, env2, *l);
            lemma_eval_agree(env1, env2, *r);
        },
        ExprV::Deref(e2) => {
            lemma_eval_agree(env1, env2, *e2);
        },
        ExprV::Index(l, r) => {
            lemma_eval_agree(env1, env2, *l);
            lemma_eval_agree(env1, env2, *r);
        },
        _ => {},
    }
}

pub proof fn lemma_eval_sum_agree(env1: EnvV, env2: EnvV, args: Seq<ExprV>)
    requires
        agree(env1, env2),
        no_reserved_args(args),
    ensures
        eval_sum(env1, args) == eval_sum(env2, args),
    decreases args,
{
    if args.len() > 0 {
        lemma_eval_agree(env1, env2, args[0]);
        lemma_eval_sum_agree(env1, env2, args.drop_first());
    }
}

/// An environment that differs from an agreeing one only on temporaries
/// (which are reserved) still agrees.
pub proof fn lemma_agree_through_temps(env1: EnvV, env2: EnvV, env2p: EnvV, c: nat)
    requires
        agree(env1, env2),
        diff_only_temps_from(env2p, env2, c),
    ensures
        agree(env1, env2p),
{
    assert forall|k: Seq<char>| !is_reserved(k) implies #[trigger] env_get(env1, k) == env_get(env2p, k) by {
        if env_get(env2p, k) != env_get(env2, k) {
            let j = choose|j: nat| j >= c && k == temp_name(j);
            lemma_temp_name_reserved(j);
        }
    }
}

/// Flattening one expression is sound: running the emitted assignments
/// touches only the temporaries it names, and the atomic replacement then
/// has the original expression's value — even after later statements write
/// higher-numbered temporaries.
pub proof fn lemma_flatten_expr_sem(env1: EnvV, env2: EnvV, c: nat, e: ExprV)
    requires
        agree(env1, env2),
        no_reserved_expr(e),
    ensures
        ({
            let (stmts, a, c2) = flatten_expr(c, e);
            let env2p = run_stmts(env2, stmts);
            &&& forall|k: Seq<char>| #[trigger] env_get(env2p, k) != env_get(env2, k) ==> is_temp_in(k, c, c2)
            &&& forall|env3: EnvV| #[trigger] diff_only_temps_from(env3, env2p, c2)
                ==> eval_expr(env3, a) == eval_expr(env1, e)
        }),
    decreases e,
{
    let (stmts, a, c2) = flatten_expr(c, e);
    let env2p = run_stmts(env2, stmts);
    match e {
        ExprV::Binary(op, l, r) => {
            let (ls, la, c1) = flatten_expr(c, *l);
            let (rs, ra, cr) = flatten_expr(c1, *r);
            let t = temp_name(cr);
            let env2a = run_stmts(env2, ls);
            let env2b = run_stmts(env2a, rs);
            crate::compiler::lemma_flatten_expr_growth(c, *l);
            crate::compiler::lemma_flatten_expr_growth(c1, *r);
            lemma_flatten_expr_sem(env1, env2, c, *l);
            assert(diff_only_temps_from(env2a, env2, c));
            lemma_agree_through_temps(env1, env2, env2a, c);
            lemma_flatten_expr_sem(env1, env2a, c1, *r);
            assert(diff_only_temps_from(env2b, env2a, c1));
            assert(diff_only_temps_from(env2b, env2b, cr));
            // the left atom survives the right-hand statements
            assert(eval_expr(env2b, la) == eval_expr(env1, *l));
            assert(eval_expr(env2b, ra) == eval_expr(env1, *r));
            // run the final temporary assignment
            let assign = StmtV::Assign(t, ExprV::Binary(op, Box::new(la), Box::new(ra)));
            assert(stmts =~= (ls + rs) + seq![assign]);
            lemma_run_concat(env2, ls, rs);
            assert(run_stmts(env2, ls + rs) == env2b);
            lemma_run_concat(env2, ls + rs, seq![assign]);
            lemma_run_one(env2b, assign);
            assert(env2p == run_stmt(env2b, assign));
            let v = apply_binop(op, eval_expr(env2b, la), eval_expr(env2b, ra));
            assert(eval_expr(env2b, ExprV::Binary(op, Box::new(la), Box::new(ra))) == v);
            assert(env2p == env2b.insert(t, v));
            assert(v == eval_expr(env1, e));
            // changed keys lie in [c, c2)
            assert forall|k: Seq<char>| #[trigger] env_get(env2p, k) != env_get(env2, k)
                implies is_temp_in(k, c, c2) by {
                if k == t {
                    assert(cr <= cr < c2 && k == temp_name(cr));
                } else {
                    assert(env_get(env2p, k) == env_get(env2b, k));
                    if env_get(env2b, k) != env_get(env2a, k) {
                        let j = choose|j: nat| c1 <= j < cr && k == temp_name(j);
                        assert(c <= j < c2 && k == temp_name(j));
                    } else {
                        assert(env_get(env2a, k) != env_get(env2, k));
                        let j = choose|j: nat| c <= j < c1 && k == temp_name(j);
                        assert(c <= j < c2 && k == temp_name(j));
                    }
                }
            }
            // the result atom reads the temporary, stable under higher writes
            assert forall|env3: EnvV| #[trigger] diff_only_temps_from(env3, env2p, c2)
                implies eval_expr(env3, a) == eval_expr(env1, e) by {
                assert(eval_expr(env3, a) == env_get(env3, t));
                if env_get(env3, t) != env_get(env2p, t) {
                    let j = choose|j: nat| j >= c2 && t == temp_name(j);
                    lemma_temp_name_injective(cr, j);
                    assert(false);
                }
                assert(env_get(env2p, t) == v);
            }
        },
        _ => {
            assert(stmts =~= Seq::<StmtV>::empty());
            assert(env2p == env2);
            assert forall|env3: EnvV| #[trigger] diff_only_temps_from(env3, env2p, c2)
                implies eval_expr(env3, a) == eval_expr(env1, e) by {
                lemma_agree_through_temps(env1, env2p, env3, c2);
                lemma_eval_agree(env1, env3, e);
            }
        },
    }
}

/// Flattening one statement preserves the bindings of every non-reserved
/// name.
pub proof fn lemma_flatten_stmt_sem(env1: EnvV, env2: EnvV, c: nat, s: StmtV)
    requires
        agree(env1, env2),
        no_reserved_stmt(s),
    ensures
        agree(run_stmt(env1, s), run_stmts(env2, flatten_stmt(c, s).0)),
    decreases s,
{
    let (stmts, c2) = flatten_stmt(c, s);
    match s {
        StmtV::Block(inner) => {
            let (l2, cb) = flatten_stmts(c, inner);
            lemma_flatten_stmts_sem(env1, env2, c, inner);
            assert(stmts =~= seq![StmtV::Block(l2)]);
            lemma_run_one(env2, StmtV::Block(l2));
            assert(run_stmts(env2, stmts) == run_stmt(env2, StmtV::Block(l2)));
        },
        StmtV::Assign(n, e) => {
            let (es, a, ce) = flatten_expr(c, e);
            lemma_flatten_expr_sem(env1, env2, c, e);
            let env2e = run_stmts(env2, es);
            lemma_run_push(env2, es, StmtV::Assign(n, a));
            assert(flatten_stmt(c, s).0 == es.push(StmtV::Assign(n, a)));
            assert(diff_only_temps_from(env2e, env2e, ce));
            assert(eval_expr(env2e, a) == eval_expr(env1, e));
            let env1p = env1.insert(n, eval_expr(env1, e));
            let env2p = env2e.insert(n, eval_expr(env2e, a));
            assert(diff_only_temps_from(env2e, env2, c));
            lemma_agree_through_temps(env1, env2, env2e, c);
            assert forall|k: Seq<char>| !is_reserved(k) implies #[trigger] env_get(env1p, k) == env_get(env2p, k) by {
                if k == n {
                } else {
                    assert(env_get(env1p, k) == env_get(env1, k));
                    assert(env_get(env2p, k) == env_get(env2e, k));
                    assert(env_get(env1, k) == env_get(env2e, k));
                }
            }
        },
        StmtV::AddAssign(n, e) => {
            lemma_passthrough_compound(env1, env2, s, n, e);
        },
        StmtV::SubAssign(n, e) => {
            lemma_passthrough_compound(env1, env2, s, n, e);
        },
        StmtV::MulAssign(n, e) => {
            lemma_passthrough_compound(env1, env2, s, n, e);
        },
        StmtV::DivAssign(n, e) => {
            lemma_passthrough_compound(env1, env2, s, n, e);
        },
        _ => {
            // labels and declarations leave the environment unchanged,
            // whether or not a declaration body was rewritten
            assert(run_stmt(env1, s) == env1);
            assert(stmts.len() == 1 && run_stmt(env2, stmts[0]) == env2);
            assert(stmts =~= seq![stmts[0]]);
            lemma_run_one(env2, stmts[0]);
            assert(run_stmts(env2, stmts) == env2);
        },
    }
}

/// A compound assignment passes through flattening unchanged, and agreeing
/// environments run it to agreeing environments.
proof fn lemma_passthrough_compound(env1: EnvV, env2: EnvV, s: StmtV, n: Seq<char>, e: ExprV)
    requires
        agree(env1, env2),
        !is_reserved(n),
        no_reserved_expr(e),
        s == StmtV::AddAssign(n, e) || s == StmtV::SubAssign(n, e) || s == StmtV::MulAssign(n, e)
            || s == StmtV::DivAssign(n, e),
    ensures
        forall|c: nat| #[trigger] flatten_stmt(c, s).0 =~= seq![s],
        agree(run_stmt(env1, s), run_stmts(env2, seq![s])),
{
    lemma_eval_agree(env1, env2, e);
    assert(env_get(env1, n) == env_get(env2, n));
    lemma_run_one(env2, s);
    let env1p = run_stmt(env1, s);
    let env2p = run_stmt(env2, s);
    assert forall|k: Seq<char>| !is_reserved(k) implies #[trigger] env_get(env1p, k) == env_get(env2p, k) by {
        if k != n {
            assert(env_get(env1p, k) == env_get(env1, k));
            assert(env_get(env2p, k) == env_get(env2, k));
        }
    }
}

/// Flattening a statement list preserves the bindings of every
/// non-reserved name.
pub proof fn lemma_flatten_stmts_sem(env1: EnvV, env2: EnvV, c: nat, l: Seq<StmtV>)
    requires
        agree(env1, env2),
        no_reserved_stmts(l),
    ensures
        agree(run_stmts(env1, l), run_stmts(env2, flatten_stmts(c, l).0)),
    decreases l,
{
    if l.len() == 0 {
        assert(flatten_stmts(c, l).0 =~= Seq::<StmtV>::empty());
    } else {
        let (f, c1) = flatten_stmt(c, l[0]);
        let (rest, c2) = flatten_stmts(c1, l.drop_first());
        lemma_flatten_stmt_sem(env1, env2, c, l[0]);
        lemma_run_concat(env2, f, rest);
        lemma_flatten_stmts_sem(run_stmt(env1, l[0]), run_stmts(env2, f), c1, l.drop_first());
    }
}

/// Desugaring does not change what a statement does.
pub proof fn lemma_desugar_sem(env: EnvV, s: StmtV)
    ensures
        run_stmt(env, desugar_stmt(s)) == run_stmt(env, s),
    decreases s,
{
    match s {
        StmtV::Block(inner) => {
            lemma_desugar_stmts_sem(env, inner);
        },
        StmtV::AddAssign(n, e) => {
            assert(eval_expr(env, ExprV::Identifier(n)) == env_get(env, n));
        },
        StmtV::SubAssign(n, e) => {
            assert(eval_expr(env, ExprV::Identifier(n)) == env_get(env, n));
        },
        StmtV::MulAssign(n, e) => {
            assert(eval_expr(env, ExprV::Identifier(n)) == env_get(env, n));
        },
        StmtV::DivAssign(n, e) => {
            assert(eval_expr(env, ExprV::Identifier(n)) == env_get(env, n));
        },
        _ => {},
    }
}

pub proof fn lemma_desugar_stmts_sem(env: EnvV, l: Seq<StmtV>)
    ensures
        run_stmts(env, desugar_stmts(l)) == run_stmts(env, l),
    decreases l,
{
    if l.len() > 0 {
        lemma_desugar_sem(env, l[0]);
        assert(desugar_stmts(l).drop_first() =~= desugar_stmts(l.drop_first()));
        lemma_desugar_stmts_sem(run_stmt(env, l[0]), l.drop_first());
    }
}

/// Desugaring introduces no reserved name.
pub proof fn lemma_desugar_no_reserved(s: StmtV)
    requires
        no_reserved_stmt(s),
    ensures
        no_reserved_stmt(desugar_stmt(s)),
    decreases s,
{
    match s {
        StmtV::Block(inner) => {
            lemma_desugar_stmts_no_reserved(inner);
        },
        StmtV::AddAssign(n, e) => {
            assert(no_reserved_expr(ExprV::Identifier(n)));
        },
        StmtV::SubAssign(n, e) => {
            assert(no_reserved_expr(ExprV::Identifier(n)));
        },
        StmtV::MulAssign(n, e) => {
            assert(no_reserved_expr(ExprV::Identifier(n)));
        },
        StmtV::DivAssign(n, e) => {
            assert(no_reserved_expr(ExprV::Identifier(n)));
        },
        _ => {},
    }
}

pub proof fn lemma_desugar_stmts_no_reserved(l: Seq<StmtV>)
    requires
        no_reserved_stmts(l),
    ensures
        no_reserved_stmts(desugar_stmts(l)),
    decreases l,
{
    if l.len() > 0 {
        lemma_desugar_no_reserved(l[0]);
        assert(desugar_stmts(l).drop_first() =~= desugar_stmts(l.drop_first()));
        lemma_desugar_stmts_no_reserved(l.drop_first());
    }
}

/// Semantic equivalence of the whole pipeline: for a program that mentions
/// no reserved name, running the original statement and running its
/// desugared, flattened statement list bind every non-reserved name — in
/// particular every user-declared name — to the same final value.
pub proof fn lemma_pipeline_semantics(env: EnvV, prog: StmtV)
    requires
        no_reserved_stmt(prog),
    ensures
        ({
            let flattened = flatten_stmts(0, seq![desugar_stmt(prog)]).0;
            agree(run_stmt(env, prog), run_stmts(env, flattened))
        }),
{
    let d = desugar_stmt(prog);
    lemma_desugar_sem(env, prog);
    lemma_desugar_no_reserved(prog);
    assert(seq![d].drop_first() =~= Seq::<StmtV>::empty());
    assert(no_reserved_stmts(Seq::<StmtV>::empty()));
    assert(no_reserved_stmts(seq![d]));
    lemma_run_one(env, d);
    assert(agree(env, env));
    lemma_flatten_stmts_sem(env, env, 0, seq![d]);
}

} // verus!
