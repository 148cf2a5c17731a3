//! Abstract syntax tree of the language, together with its mathematical
//! model: ghost counterparts over `Seq<char>`, the view functions relating
//! the two, and the structural predicates the pass contracts speak of.

use vstd::prelude::*;

verus! {

/// A statement of the language. A `Block` owns its children; declarations
/// own their bodies. Trees are exclusive (no sharing, no cycles).
#[derive(Debug)]
pub enum Statement {
    Block(Vec<Statement>),
    Label(String),
    Assign(String, Expression),
    AddAssign(String, Expression),
    SubAssign(String, Expression),
    MulAssign(String, Expression),
    DivAssign(String, Expression),
    FunctionDeclaration(String, Vec<String>, Box<Statement>),
    SubroutineDeclaration(String, Box<Statement>),
}

/// The binary operators of the expression language.
#[derive(Debug, Copy, Clone, PartialEq, Eq, Structural)]
pub enum BinOp {
    Add,
    Sub,
    Mul,
    Div,
    Sll,
    Srl,
    Sra,
    BitAnd,
    BitOr,
    BitXor,
    Index,
}

/// An expression: a tree of binary operations over atoms (numbers and
/// identifiers), function calls, dereferences and indexing.
#[derive(Debug)]
pub enum Expression {
    Number(i64),
    Identifier(String),
    FunctionCall(String, Vec<Expression>),
    Add(Box<Expression>, Box<Expression>),
    Sub(Box<Expression>, Box<Expression>),
    Mul(Box<Expression>, Box<Expression>),
    Div(Box<Expression>, Box<Expression>),
    Sll(Box<Expression>, Box<Expression>),
    Srl(Box<Expression>, Box<Expression>),
    Sra(Box<Expression>, Box<Expression>),
    BitAnd(Box<Expression>, Box<Expression>),
    BitOr(Box<Expression>, Box<Expression>),
    BitXor(Box<Expression>, Box<Expression>),
    Deref(Box<Expression>),
    Index(Box<Expression>, Box<Expression>),
}

/// Mathematical model of an expression. Binary operations are gathered
/// under one variant so the passes can treat them uniformly; names are
/// sequences of characters.
pub enum ExprV {
    Number(int),
    Identifier(Seq<char>),
    FunctionCall(Seq<char>, Seq<ExprV>),
    Binary(BinOp, Box<ExprV>, Box<ExprV>),
    Deref(Box<ExprV>),
    Index(Box<ExprV>, Box<ExprV>),
}

/// Mathematical model of a statement.
pub enum StmtV {
    Block(Seq<StmtV>),
    Label(Seq<char>),
    Assign(Seq<char>, ExprV),
    AddAssign(Seq<char>, ExprV),
    SubAssign(Seq<char>, ExprV),
    MulAssign(Seq<char>, ExprV),
    DivAssign(Seq<char>, ExprV),
    FunctionDeclaration(Seq<char>, Seq<Seq<char>>, Box<StmtV>),
    SubroutineDeclaration(Seq<char>, Box<StmtV>),
}

/// The views of a list of expressions, element by element.
pub open spec fn exprs_view(v: Seq<Expression>) -> Seq<ExprV>
    decreases v,
{
    if v.len() == 0 {
        Seq::empty()
    } else {
        seq![expr_view(v[0])] + exprs_view(v.drop_first())
    }
}

/// The view of a list of statements, element by element.
pub open spec fn stmts_view(v: Seq<Statement>) -> Seq<StmtV>
    decreases v,
{
    if v.len() == 0 {
        Seq::empty()
    } else {
        seq![stmt_view(v[0])] + stmts_view(v.drop_first())
    }
}

/// How `exprs_view` reads by length and position.
pub broadcast proof fn lemma_exprs_view(v: Seq<Expression>)
    ensures
        (#[trigger] exprs_view(v)).len() == v.len(),
        forall|i: int| 0 <= i < v.len() ==> exprs_view(v)[i] == expr_view(v[i]),
    decreases v,
{
    if v.len() > 0 {
        lemma_exprs_view(v.drop_first());
    }
}

/// How `stmts_view` reads by length and position.
pub broadcast proof fn lemma_stmts_view(v: Seq<Statement>)
    ensures
        (#[trigger] stmts_view(v)).len() == v.len(),
        forall|i: int| 0 <= i < v.len() ==> stmts_view(v)[i] == stmt_view(v[i]),
    decreases v,
{
    if v.len() > 0 {
        lemma_stmts_view(v.drop_first());
    }
}

/// The mathematical value of an expression.
pub open spec fn expr_view(e: Expression) -> ExprV
    decreases e,
{
    match e {
        Expression::Number(n) => ExprV::Number(n as int),
        Expression::Identifier(name) => ExprV::Identifier(name@),
        Expression::FunctionCall(name, args) => ExprV::FunctionCall(name@, exprs_view(args@)),
        Expression::Add(l, r) => ExprV::Binary(BinOp::Add, Box::new(expr_view(*l)), Box::new(expr_view(*r))),
        Expression::Sub(l, r) => ExprV::Binary(BinOp::Sub, Box::new(expr_view(*l)), Box::new(expr_view(*r))),
        Expression::Mul(l, r) => ExprV::Binary(BinOp::Mul, Box::new(expr_view(*l)), Box::new(expr_view(*r))),
        Expression::Div(l, r) => ExprV::Binary(BinOp::Div, Box::new(expr_view(*l)), Box::new(expr_view(*r))),
        Expression::Sll(l, r) => ExprV::Binary(BinOp::Sll, Box::new(expr_view(*l)), Box::new(expr_view(*r))),
        Expression::Srl(l, r) => ExprV::Binary(BinOp::Srl, Box::new(expr_view(*l)), Box::new(expr_view(*r))),
        Expression::Sra(l, r) => ExprV::Binary(BinOp::Sra, Box::new(expr_view(*l)), Box::new(expr_view(*r))),
        Expression::BitAnd(l, r) => ExprV::Binary(BinOp::BitAnd, Box::new(expr_view(*l)), Box::new(expr_view(*r))),
        Expression::BitOr(l, r) => ExprV::Binary(BinOp::BitOr, Box::new(expr_view(*l)), Box::new(expr_view(*r))),
        Expression::BitXor(l, r) => ExprV::Binary(BinOp::BitXor, Box::new(expr_view(*l)), Box::new(expr_view(*r))),
        Expression::Deref(e) => ExprV::Deref(Box::new(expr_view(*e))),
        Expression::Index(l, r) => ExprV::Index(Box::new(expr_view(*l)), Box::new(expr_view(*r))),
    }
}

/// The mathematical value of a statement.
pub open spec fn stmt_view(s: Statement) -> StmtV
    decreases s,
{
    match s {
        Statement::Block(inner) => StmtV::Block(stmts_view(inner@)),
        Statement::Label(name) => StmtV::Label(name@),
        Statement::Assign(name, e) => StmtV::Assign(name@, expr_view(e)),
        Statement::AddAssign(name, e) => StmtV::AddAssign(name@, expr_view(e)),
        Statement::SubAssign(name, e) => StmtV::SubAssign(name@, expr_view(e)),
        Statement::MulAssign(name, e) => StmtV::MulAssign(name@, expr_view(e)),
        Statement::DivAssign(name, e) => StmtV::DivAssign(name@, expr_view(e)),
        Statement::FunctionDeclaration(name, params, body) => StmtV::FunctionDeclaration(
            name@,
            Seq::new(params@.len(), |i: int| params@[i]@),
            Box::new(stmt_view(*body)),
        ),
        Statement::SubroutineDeclaration(name, body) => StmtV::SubroutineDeclaration(
            name@,
            Box::new(stmt_view(*body)),
        ),
    }
}

impl View for Expression {
    type V = ExprV;

    open spec fn view(&self) -> ExprV {
        expr_view(*self)
    }
}

impl View for Statement {
    type V = StmtV;

    open spec fn view(&self) -> StmtV {
        stmt_view(*self)
    }
}

/// A copy of a vector of names, preserving the view of every element.
pub fn clone_strings(v: &Vec<String>) -> (r: Vec<String>)
    ensures
        r@ == v@,
{
    let mut r: Vec<String> = Vec::new();
    let mut i: usize = 0;
    while i < v.len()
        invariant
            i <= v.len(),
            r@ =~= v@.subrange(0, i as int),
        decreases v.len() - i,
    {
        r.push(v[i].clone());
        i = i + 1;
        assert(r@ =~= v@.subrange(0, i as int));
    }
    assert(r@ =~= v@);
    r
}

impl Clone for Expression {
    /// A deep copy with the same mathematical value.
    #[verifier::loop_isolation(false)]
    fn clone(&self) -> (res: Self)
        ensures
            res@ == self@,
        decreases self,
    {
        match self {
            Expression::Number(n) => Expression::Number(*n),
            Expression::Identifier(name) => Expression::Identifier(name.clone()),
            Expression::FunctionCall(name, args) => {
                let mut new_args: Vec<Expression> = Vec::new();
                let mut i: usize = 0;
                while i < args.len()
                    invariant
                        i <= args.len(),
                        new_args@.len() == i,
                        forall|j: int| 0 <= j < i ==> expr_view(new_args@[j]) == expr_view(args@[j]),
                    decreases args.len() - i,
                {
                    proof {
                        assert(decreases_to!(*self => *args));
                        assert(decreases_to!(*args => args@[i as int]));
                    }
                    new_args.push(args[i].clone());
                    i = i + 1;
                }
                let res = Expression::FunctionCall(name.clone(), new_args);
                proof {
                    lemma_exprs_view(new_args@);
                    lemma_exprs_view(args@);
                    assert(exprs_view(new_args@) =~= exprs_view(args@));
                    assert(expr_view(res) == expr_view(*self));
                }
                res
            },
            Expression::Add(l, r) => Expression::Add(Box::new((**l).clone()), Box::new((**r).clone())),
            Expression::Sub(l, r) => Expression::Sub(Box::new((**l).clone()), Box::new((**r).clone())),
            Expression::Mul(l, r) => Expression::Mul(Box::new((**l).clone()), Box::new((**r).clone())),
            Expression::Div(l, r) => Expression::Div(Box::new((**l).clone()), Box::new((**r).clone())),
            Expression::Sll(l, r) => Expression::Sll(Box::new((**l).clone()), Box::new((**r).clone())),
            Expression::Srl(l, r) => Expression::Srl(Box::new((**l).clone()), Box::new((**r).clone())),
            Expression::Sra(l, r) => Expression::Sra(Box::new((**l).clone()), Box::new((**r).clone())),
            Expression::BitAnd(l, r) => Expression::BitAnd(Box::new((**l).clone()), Box::new((**r).clone())),
            Expression::BitOr(l, r) => Expression::BitOr(Box::new((**l).clone()), Box::new((**r).clone())),
            Expression::BitXor(l, r) => Expression::BitXor(Box::new((**l).clone()), Box::new((**r).clone())),
            Expression::Deref(e) => Expression::Deref(Box::new((**e).clone())),
            Expression::Index(l, r) => Expression::Index(Box::new((**l).clone()), Box::new((**r).clone())),
        }
    }
}

impl Clone for Statement {
    /// A deep copy with the same mathematical value.
    #[verifier::loop_isolation(false)]
    fn clone(&self) -> (res: Self)
        ensures
            res@ == self@,
        decreases self,
    {
        match self {
            Statement::Block(inner) => {
                let mut new_inner: Vec<Statement> = Vec::new();
                let mut i: usize = 0;
                while i < inner.len()
                    invariant
                        i <= inner.len(),
                        new_inner@.len() == i,
                        forall|j: int| 0 <= j < i ==> stmt_view(new_inner@[j]) == stmt_view(inner@[j]),
                    decreases inner.len() - i,
                {
                    proof {
                        assert(decreases_to!(*self => *inner));
                        assert(decreases_to!(*inner => inner@[i as int]));
                    }
                    new_inner.push(inner[i].clone());
                    i = i + 1;
                }
                let res = Statement::Block(new_inner);
                proof {
                    lemma_stmts_view(new_inner@);
                    lemma_stmts_view(inner@);
                    assert(stmts_view(new_inner@) =~= stmts_view(inner@));
                    assert(stmt_view(res) == stmt_view(*self));
                }
                res
            },
            Statement::Label(name) => Statement::Label(name.clone()),
            Statement::Assign(name, e) => Statement::Assign(name.clone(), e.clone()),
            Statement::AddAssign(name, e) => Statement::AddAssign(name.clone(), e.clone()),
            Statement::SubAssign(name, e) => Statement::SubAssign(name.clone(), e.clone()),
            Statement::MulAssign(name, e) => Statement::MulAssign(name.clone(), e.clone()),
            Statement::DivAssign(name, e) => Statement::DivAssign(name.clone(), e.clone()),
            Statement::FunctionDeclaration(name, params, body) => {
                Statement::FunctionDeclaration(name.clone(), clone_strings(params), Box::new((**body).clone()))
            },
            Statement::SubroutineDeclaration(name, body) => Statement::SubroutineDeclaration(name.clone(), Box::new((**body).clone())),
        }
    }
}

/// An atom: a literal number or an identifier reference.
pub open spec fn is_atom(e: ExprV) -> bool {
    e is Number || e is Identifier
}

/// A simple expression: an atom, or exactly one binary operation over atoms.
pub open spec fn is_simple(e: ExprV) -> bool {
    match e {
        ExprV::Binary(_, l, r) => is_atom(*l) && is_atom(*r),
        _ => is_atom(e),
    }
}

/// An expression built from atoms and binary operations alone: no function
/// call, dereference or indexing anywhere in the tree.
pub open spec fn arith_only_expr(e: ExprV) -> bool
    decreases e,
{
    match e {
        ExprV::Number(_) => true,
        ExprV::Identifier(_) => true,
        ExprV::FunctionCall(_, _) => false,
        ExprV::Binary(_, l, r) => arith_only_expr(*l) && arith_only_expr(*r),
        ExprV::Deref(_) => false,
        ExprV::Index(_, _) => false,
    }
}

/// Whether a compound-assignment statement occurs anywhere in the tree.
pub open spec fn has_compound(s: StmtV) -> bool
    decreases s,
{
    match s {
        StmtV::Block(inner) => exists|i: int| 0 <= i < inner.len() && has_compound(#[trigger] inner[i]),
        StmtV::AddAssign(_, _) => true,
        StmtV::SubAssign(_, _) => true,
        StmtV::MulAssign(_, _) => true,
        StmtV::DivAssign(_, _) => true,
        StmtV::FunctionDeclaration(_, _, body) => has_compound(*body),
        StmtV::SubroutineDeclaration(_, body) => has_compound(*body),
        _ => false,
    }
}

/// Every `Assign` statement in the tree carries a simple expression.
pub open spec fn assigns_simple(s: StmtV) -> bool
    decreases s,
{
    match s {
        StmtV::Block(inner) => forall|i: int| 0 <= i < inner.len() ==> assigns_simple(#[trigger] inner[i]),
        StmtV::Assign(_, e) => is_simple(e),
        StmtV::FunctionDeclaration(_, _, body) => assigns_simple(*body),
        StmtV::SubroutineDeclaration(_, body) => assigns_simple(*body),
        _ => true,
    }
}

/// Every `Assign` statement in the list carries a simple expression.
pub open spec fn all_assigns_simple(l: Seq<StmtV>) -> bool {
    forall|i: int| 0 <= i < l.len() ==> assigns_simple(#[trigger] l[i])
}

/// Every expression of every `Assign` in the tree is built from atoms and
/// binary operations alone.
pub open spec fn arith_only_stmt(s: StmtV) -> bool
    decreases s,
{
    match s {
        StmtV::Block(inner) => forall|i: int| 0 <= i < inner.len() ==> arith_only_stmt(#[trigger] inner[i]),
        StmtV::Assign(_, e) => arith_only_expr(e),
        StmtV::FunctionDeclaration(_, _, body) => arith_only_stmt(*body),
        StmtV::SubroutineDeclaration(_, body) => arith_only_stmt(*body),
        _ => true,
    }
}

/// A bound on the number of temporaries flattening an expression can
/// introduce: the count of its binary operation nodes.
pub open spec fn expr_size(e: ExprV) -> nat
    decreases e,
{
    match e {
        ExprV::Binary(_, l, r) => 1 + expr_size(*l) + expr_size(*r),
        _ => 0,
    }
}

/// A bound on the number of temporaries flattening a statement can introduce.
pub open spec fn stmt_size(s: StmtV) -> nat
    decreases s,
{
    match s {
        StmtV::Block(inner) => stmts_size(inner),
        StmtV::Assign(_, e) => expr_size(e),
        StmtV::FunctionDeclaration(_, _, body) => stmt_size(*body),
        StmtV::SubroutineDeclaration(_, body) => stmt_size(*body),
        _ => 0,
    }
}

pub open spec fn stmts_size(l: Seq<StmtV>) -> nat
    decreases l,
{
    if l.len() == 0 {
        0
    } else {
        stmt_size(l[0]) + stmts_size(l.drop_first())
    }
}

} // verus!
