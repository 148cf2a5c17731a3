//! The grammar-driven parser over raw source text, with its mathematical
//! model: a deterministic recursive-descent specification of the grammar,
//! alternatives tried in the documented fixed order, and executable
//! functions proved to return exactly what the model gives.
//!
//! The grammar, tried top to bottom within each rule:
//!   expression  := primitive op expression (op one of + - * / << >> & | ^,
//!                  at most one alternative's operator can match)
//!                | identifier '(' arguments ')' | '*' expression | primitive
//!   primitive   := identifier | number | '(' expression ')'
//!   number      := hexadecimal | octal | binary | decimal, with '_' as a
//!                  digit separator; a value over `i64::MAX` rejects the
//!                  alternative
//!   statement   := block | assignment | function, surrounded by whitespace
//!   block       := '{' statement* '}'
//!   assignment  := identifier [+-/*]? '=' expression ';'
//!   function    := 'fn' identifier '(' parameters ')' block
//!   program     := statement*, which must consume the whole input

use vstd::prelude::*;

use crate::CompilationError;
use crate::ast::{BinOp, ExprV, Expression, StmtV, Statement, expr_view, stmt_view};
use crate::lexer::{ident_end, is_ident_start};
use crate::text::str_to_chars;

verus! {

/// The first position at or after `i` that is not a space, newline or tab.
pub open spec fn spec_ws(s: Seq<char>, i: nat) -> nat
    decreases s.len() - i
        when i <= s.len()
{
    if i < s.len() && (s[i as int] == ' ' || s[i as int] == '\n' || s[i as int] == '\t') {
        spec_ws(s, i + 1)
    } else {
        i
    }
}

/// An identifier at `i`: a letter or underscore, then letters, digits and
/// underscores. Yields the position after it.
pub open spec fn spec_ident(s: Seq<char>, i: nat) -> Option<nat> {
    if i < s.len() && is_ident_start(s[i as int]) {
        Some(ident_end(s, i + 1))
    } else {
        None
    }
}

/// A digit of the given base.
pub open spec fn is_base_digit(c: char, base: int) -> bool {
    if base == 16 {
        ('0' <= c && c <= '9') || ('a' <= c && c <= 'f') || ('A' <= c && c <= 'F')
    } else if base == 8 {
        '0' <= c && c <= '7'
    } else if base == 2 {
        c == '0' || c == '1'
    } else {
        '0' <= c && c <= '9'
    }
}

/// The value of one digit character, in any base up to sixteen.
pub open spec fn base_digit_val(c: char) -> int {
    if c == '0' { 0 }
    else if c == '1' { 1 }
    else if c == '2' { 2 }
    else if c == '3' { 3 }
    else if c == '4' { 4 }
    else if c == '5' { 5 }
    else if c == '6' { 6 }
    else if c == '7' { 7 }
    else if c == '8' { 8 }
    else if c == '9' { 9 }
    else if c == 'a' || c == 'A' { 10 }
    else if c == 'b' || c == 'B' { 11 }
    else if c == 'c' || c == 'C' { 12 }
    else if c == 'd' || c == 'D' { 13 }
    else if c == 'e' || c == 'E' { 14 }
    else { 15 }
}

/// The end of a numeral body starting at `p`: digits of the base and
/// underscore separators.
pub open spec fn num_end(s: Seq<char>, p: nat, base: int) -> nat
    decreases s.len() - p
        when p <= s.len()
{
    if p < s.len() && (is_base_digit(s[p as int], base) || s[p as int] == '_') {
        num_end(s, p + 1, base)
    } else {
        p
    }
}

pub proof fn lemma_num_end(s: Seq<char>, p: nat, base: int)
    requires
        p <= s.len(),
    ensures
        p <= num_end(s, p, base) <= s.len(),
    decreases s.len() - p,
{
    if p < s.len() && (is_base_digit(s[p as int], base) || s[p as int] == '_') {
        lemma_num_end(s, p + 1, base);
    }
}

/// The value a numeral body denotes: underscores are separators and are
/// skipped; digits accumulate most significant first.
pub open spec fn radix_val(text: Seq<char>, base: int) -> int
    decreases text,
{
    if text.len() == 0 {
        0
    } else if text.last() == '_' {
        radix_val(text.drop_last(), base)
    } else {
        radix_val(text.drop_last(), base) * base + base_digit_val(text.last())
    }
}

/// One prefixed numeral alternative: `0` then the base letter, then at
/// least one digit. A value over `i64::MAX` rejects the alternative.
pub open spec fn spec_prefixed_number(s: Seq<char>, i: nat, p1: char, p2: char, base: int) -> Option<(nat, int)> {
    if i + 2 < s.len() && s[i as int] == '0' && (s[i as int + 1] == p1 || s[i as int + 1] == p2)
        && is_base_digit(s[i as int + 2], base) {
        let end = num_end(s, i + 3, base);
        let v = radix_val(s.subrange(i as int + 2, end as int), base);
        if v <= i64::MAX {
            Some((end, v))
        } else {
            None
        }
    } else {
        None
    }
}

/// A decimal numeral at `i`.
pub open spec fn spec_decimal_number(s: Seq<char>, i: nat) -> Option<(nat, int)> {
    if i < s.len() && is_base_digit(s[i as int], 10) {
        let end = num_end(s, i + 1, 10);
        let v = radix_val(s.subrange(i as int, end as int), 10);
        if v <= i64::MAX {
            Some((end, v))
        } else {
            None
        }
    } else {
        None
    }
}

/// A numeral at `i`: hexadecimal, octal, binary and decimal alternatives,
/// tried in that order.
pub open spec fn spec_number(s: Seq<char>, i: nat) -> Option<(nat, int)> {
    if spec_prefixed_number(s, i, 'x', 'X', 16) is Some {
        spec_prefixed_number(s, i, 'x', 'X', 16)
    } else if spec_prefixed_number(s, i, 'o', 'O', 8) is Some {
        spec_prefixed_number(s, i, 'o', 'O', 8)
    } else if spec_prefixed_number(s, i, 'b', 'B', 2) is Some {
        spec_prefixed_number(s, i, 'b', 'B', 2)
    } else {
        spec_decimal_number(s, i)
    }
}

/// The binary operator symbol at `i`, with the position after it. The
/// two-character shift symbols need both characters; a lone `<` or `>` is
/// no operator here.
pub open spec fn spec_binop_at(s: Seq<char>, i: nat) -> Option<(nat, BinOp)> {
    if i < s.len() {
        let c = s[i as int];
        if c == '+' { Some(((i + 1) as nat, BinOp::Add)) }
        else if c == '-' { Some(((i + 1) as nat, BinOp::Sub)) }
        else if c == '*' { Some(((i + 1) as nat, BinOp::Mul)) }
        else if c == '/' { Some(((i + 1) as nat, BinOp::Div)) }
        else if c == '<' && i + 1 < s.len() && s[i as int + 1] == '<' { Some(((i + 2) as nat, BinOp::Sll)) }
        else if c == '>' && i + 1 < s.len() && s[i as int + 1] == '>' { Some(((i + 2) as nat, BinOp::Srl)) }
        else if c == '&' { Some(((i + 1) as nat, BinOp::BitAnd)) }
        else if c == '|' { Some(((i + 1) as nat, BinOp::BitOr)) }
        else if c == '^' { Some(((i + 1) as nat, BinOp::BitXor)) }
        else { None }
    } else {
        None
    }
}

/// A primitive expression at `i`: an identifier, a numeral, or a
/// parenthesized expression, tried in that order.
pub open spec fn spec_primitive(s: Seq<char>, i: nat) -> Option<(nat, ExprV)>
    decreases s.len() - i, 0nat
        when i <= s.len()
{
    if spec_ident(s, i) is Some {
        let end = spec_ident(s, i)->Some_0;
        if i < end <= s.len() {
            Some((end, ExprV::Identifier(s.subrange(i as int, end as int))))
        } else {
            None
        }
    } else if spec_number(s, i) is Some {
        let (end, v) = spec_number(s, i)->Some_0;
        if i < end <= s.len() {
            Some((end, ExprV::Number(v)))
        } else {
            None
        }
    } else if i < s.len() && s[i as int] == '(' {
        let j = spec_ws(s, i + 1);
        if i < j <= s.len() {
            match spec_expression(s, j) {
                Some((q, e)) => {
                    if q <= s.len() {
                        let k = spec_ws(s, q);
                        if k < s.len() && s[k as int] == ')' {
                            Some(((k + 1) as nat, e))
                        } else {
                            None
                        }
                    } else {
                        None
                    }
                },
                None => None,
            }
        } else {
            None
        }
    } else {
        None
    }
}

/// The argument list of a call, between the parentheses: expressions
/// surrounded by whitespace and separated by commas, possibly none.
/// Yields the position after the last element (or `p` when empty).
pub open spec fn spec_args(s: Seq<char>, p: nat) -> (nat, Seq<ExprV>)
    decreases s.len() - p, 4nat
        when p <= s.len()
{
    let j = spec_ws(s, p);
    if p <= j <= s.len() {
        match spec_expression(s, j) {
            Some((q, e)) => {
                if j < q <= s.len() {
                    let r = spec_ws(s, q);
                    if p < r <= s.len() {
                        spec_args_more(s, r, seq![e])
                    } else {
                        (p, Seq::empty())
                    }
                } else {
                    (p, Seq::empty())
                }
            },
            None => (p, Seq::empty()),
        }
    } else {
        (p, Seq::empty())
    }
}

/// Further `',' expression` groups of an argument list.
pub open spec fn spec_args_more(s: Seq<char>, r: nat, acc: Seq<ExprV>) -> (nat, Seq<ExprV>)
    decreases s.len() - r, 4nat
        when r <= s.len()
{
    if r < s.len() && s[r as int] == ',' {
        let j = spec_ws(s, r + 1);
        if r < j <= s.len() {
            match spec_expression(s, j) {
                Some((q, e)) => {
                    if j <= q <= s.len() {
                        let r2 = spec_ws(s, q);
                        if r < r2 <= s.len() {
                            spec_args_more(s, r2, acc.push(e))
                        } else {
                            (r, acc)
                        }
                    } else {
                        (r, acc)
                    }
                },
                None => (r, acc),
            }
        } else {
            (r, acc)
        }
    } else {
        (r, acc)
    }
}

/// A function call at `i`: an identifier, whitespace, and a parenthesized
/// argument list.
pub open spec fn spec_call_at(s: Seq<char>, i: nat) -> Option<(nat, ExprV)>
    decreases s.len() - i, 1nat
        when i <= s.len()
{
    match spec_ident(s, i) {
        Some(idend) => {
            if i < idend <= s.len() {
                let k = spec_ws(s, idend);
                if k < s.len() && s[k as int] == '(' && i < k + 1 {
                    let (aend, args) = spec_args(s, (k + 1) as nat);
                    if aend < s.len() && s[aend as int] == ')' {
                        Some(((aend + 1) as nat, ExprV::FunctionCall(s.subrange(i as int, idend as int), args)))
                    } else {
                        None
                    }
                } else {
                    None
                }
            } else {
                None
            }
        },
        None => None,
    }
}

/// An expression at `i`, per the documented alternative order: each binary
/// operator form first (a primitive, the operator symbol, then a full
/// expression on the right, which makes operators right-associative), then
/// a function call, then a dereference, finally a bare primitive.
pub open spec fn spec_expression(s: Seq<char>, i: nat) -> Option<(nat, ExprV)>
    decreases s.len() - i, 3nat
        when i <= s.len()
{
    match spec_primitive(s, i) {
        Some((j, left)) => {
            if i < j <= s.len() {
                let k = spec_ws(s, j);
                if k <= s.len() {
                    match spec_binop_at(s, k) {
                        Some((m, op)) => {
                            if i < m <= s.len() {
                                let n = spec_ws(s, m);
                                if i < n <= s.len() {
                                    match spec_expression(s, n) {
                                        Some((q, right)) => Some((q, ExprV::Binary(op, Box::new(left), Box::new(right)))),
                                        None => spec_fallback(s, i, j, left),
                                    }
                                } else {
                                    None
                                }
                            } else {
                                None
                            }
                        },
                        None => spec_fallback(s, i, j, left),
                    }
                } else {
                    None
                }
            } else {
                None
            }
        },
        None => {
            if i < s.len() && s[i as int] == '*' {
                let j = spec_ws(s, i + 1);
                if i < j <= s.len() {
                    match spec_expression(s, j) {
                        Some((q, e)) => Some((q, ExprV::Deref(Box::new(e)))),
                        None => None,
                    }
                } else {
                    None
                }
            } else {
                None
            }
        },
    }
}

/// Where no binary operator form applies after a successful primitive: a
/// function call if one matches from the same start, otherwise the
/// primitive itself. (A dereference cannot start where a primitive
/// matched.)
pub open spec fn spec_fallback(s: Seq<char>, i: nat, j: nat, left: ExprV) -> Option<(nat, ExprV)>
    decreases s.len() - i, 2nat
        when i <= s.len()
{
    match spec_call_at(s, i) {
        Some(r) => Some(r),
        None => Some((j, left)),
    }
}

/// The parameter list of a function declaration: identifiers separated by
/// commas, with no whitespace of their own.
pub open spec fn spec_params(s: Seq<char>, p: nat) -> (nat, Seq<Seq<char>>)
    decreases s.len() - p
        when p <= s.len()
{
    match spec_ident(s, p) {
        Some(end) => {
            if p < end <= s.len() {
                spec_params_more(s, end, seq![s.subrange(p as int, end as int)])
            } else {
                (p, Seq::empty())
            }
        },
        None => (p, Seq::empty()),
    }
}

pub open spec fn spec_params_more(s: Seq<char>, r: nat, acc: Seq<Seq<char>>) -> (nat, Seq<Seq<char>>)
    decreases s.len() - r
        when r <= s.len()
{
    if r < s.len() && s[r as int] == ',' {
        match spec_ident(s, r + 1) {
            Some(end) => {
                if r < end <= s.len() {
                    spec_params_more(s, end, acc.push(s.subrange(r as int + 1, end as int)))
                } else {
                    (r, acc)
                }
            },
            None => (r, acc),
        }
    } else {
        (r, acc)
    }
}

/// A block at `j`: `'{'`, whitespace, statements, whitespace, `'}'`.
pub open spec fn spec_block(s: Seq<char>, j: nat) -> Option<(nat, StmtV)>
    decreases s.len() - j, 1nat
        when j <= s.len()
{
    if j < s.len() && s[j as int] == '{' {
        let k = spec_ws(s, j + 1);
        if j < k <= s.len() {
            let (send, stmts) = spec_stmts(s, k);
            if k <= send <= s.len() {
                let k2 = spec_ws(s, send);
                if k2 < s.len() && s[k2 as int] == '}' {
                    Some(((k2 + 1) as nat, StmtV::Block(stmts)))
                } else {
                    None
                }
            } else {
                None
            }
        } else {
            None
        }
    } else {
        None
    }
}

/// An assignment at `j`: an identifier, whitespace, an optional compound
/// operator character, `'='`, an expression surrounded by whitespace, and
/// `';'`. The operator selects the statement variant.
pub open spec fn spec_assignment(s: Seq<char>, j: nat) -> Option<(nat, StmtV)>
    decreases s.len() - j, 1nat
        when j <= s.len()
{
    match spec_ident(s, j) {
        Some(idend) => {
            if j < idend <= s.len() {
                let name = s.subrange(j as int, idend as int);
                let k = spec_ws(s, idend);
                if k <= s.len() {
                    let opc: Option<char> = if k < s.len() && (s[k as int] == '+' || s[k as int] == '-'
                        || s[k as int] == '/' || s[k as int] == '*') {
                        Some(s[k as int])
                    } else {
                        None
                    };
                    let eq = if opc is Some { (k + 1) as nat } else { k };
                    if eq < s.len() && s[eq as int] == '=' {
                        let m = spec_ws(s, eq + 1);
                        if j < m <= s.len() {
                            match spec_expression(s, m) {
                                Some((q, e)) => {
                                    if q <= s.len() {
                                        let r = spec_ws(s, q);
                                        if r < s.len() && s[r as int] == ';' {
                                            let st = match opc {
                                                Some(c) => {
                                                    if c == '+' { StmtV::AddAssign(name, e) }
                                                    else if c == '-' { StmtV::SubAssign(name, e) }
                                                    else if c == '*' { StmtV::MulAssign(name, e) }
                                                    else { StmtV::DivAssign(name, e) }
                                                },
                                                None => StmtV::Assign(name, e),
                                            };
                                            Some(((r + 1) as nat, st))
                                        } else {
                                            None
                                        }
                                    } else {
                                        None
                                    }
                                },
                                None => None,
                            }
                        } else {
                            None
                        }
                    } else {
                        None
                    }
                } else {
                    None
                }
            } else {
                None
            }
        },
        None => None,
    }
}

/// A function declaration at `j`: `fn`, the name surrounded by whitespace,
/// the parenthesized parameter list, whitespace, and the block body.
pub open spec fn spec_function(s: Seq<char>, j: nat) -> Option<(nat, StmtV)>
    decreases s.len() - j, 1nat
        when j <= s.len()
{
    if j + 1 < s.len() && s[j as int] == 'f' && s[j as int + 1] == 'n' {
        let k = spec_ws(s, j + 2);
        if j < k <= s.len() {
            match spec_ident(s, k) {
                Some(idend) => {
                    if k < idend <= s.len() {
                        let name = s.subrange(k as int, idend as int);
                        let k2 = spec_ws(s, idend);
                        if k2 < s.len() && s[k2 as int] == '(' {
                            let (pend, params) = spec_params(s, (k2 + 1) as nat);
                            if k2 < pend <= s.len() || pend == k2 + 1 {
                                if pend < s.len() && s[pend as int] == ')' {
                                    let k3 = spec_ws(s, pend + 1);
                                    if j < k3 <= s.len() {
                                        match spec_block(s, k3) {
                                            Some((bend, body)) => Some((bend, StmtV::FunctionDeclaration(name, params, Box::new(body)))),
                                            None => None,
                                        }
                                    } else {
                                        None
                                    }
                                } else {
                                    None
                                }
                            } else {
                                None
                            }
                        } else {
                            None
                        }
                    } else {
                        None
                    }
                },
                None => None,
            }
        } else {
            None
        }
    } else {
        None
    }
}

/// A statement at `i`: whitespace, then a block, an assignment or a
/// function declaration (tried in that order), then whitespace.
pub open spec fn spec_statement(s: Seq<char>, i: nat) -> Option<(nat, StmtV)>
    decreases s.len() - i, 2nat
        when i <= s.len()
{
    let j = spec_ws(s, i);
    if i <= j <= s.len() {
        let inner = if spec_block(s, j) is Some {
            spec_block(s, j)
        } else if spec_assignment(s, j) is Some {
            spec_assignment(s, j)
        } else {
            spec_function(s, j)
        };
        match inner {
            Some((q, st)) => {
                if q <= s.len() {
                    Some((spec_ws(s, q), st))
                } else {
                    None
                }
            },
            None => None,
        }
    } else {
        None
    }
}

/// As many statements as match, one after another.
pub open spec fn spec_stmts(s: Seq<char>, p: nat) -> (nat, Seq<StmtV>)
    decreases s.len() - p, 3nat
        when p <= s.len()
{
    match spec_statement(s, p) {
        Some((q, st)) => {
            if p < q <= s.len() {
                let (rest_end, rest) = spec_stmts(s, q);
                (rest_end, seq![st] + rest)
            } else {
                (p, Seq::empty())
            }
        },
        None => (p, Seq::empty()),
    }
}

/// The zero-based line of position `q`: the newlines before it.
pub open spec fn line_of(s: Seq<char>, q: nat) -> nat
    decreases q,
{
    if q == 0 {
        0
    } else if s[q as int - 1] == '\n' {
        line_of(s, (q - 1) as nat) + 1
    } else {
        line_of(s, (q - 1) as nat)
    }
}

/// The position where the line holding `q` starts: just after the last
/// newline before `q`.
pub open spec fn line_start_of(s: Seq<char>, q: nat) -> nat
    decreases q,
{
    if q == 0 {
        0
    } else if s[q as int - 1] == '\n' {
        q
    } else {
        line_start_of(s, (q - 1) as nat)
    }
}

pub proof fn lemma_line_start(s: Seq<char>, q: nat)
    ensures
        line_start_of(s, q) <= q,
    decreases q,
{
    if q > 0 && s[q as int - 1] != '\n' {
        lemma_line_start(s, (q - 1) as nat);
    }
}

/// What parsing a whole source text yields: the program as the root block
/// when the statements consume every character, or the zero-based line and
/// column where parsing stopped.
pub open spec fn spec_parse(s: Seq<char>) -> Result<StmtV, (nat, nat)> {
    let (q, stmts) = spec_stmts(s, 0);
    if q == s.len() {
        Ok(StmtV::Block(stmts))
    } else {
        Err((line_of(s, q), (q - line_start_of(s, q)) as nat))
    }
}


/// How an executable expression-parse result corresponds to the model's.
pub open spec fn expr_res(r: Option<(usize, Expression)>, sr: Option<(nat, ExprV)>) -> bool {
    match (r, sr) {
        (Some((j, e)), Some(p)) => j == p.0 && expr_view(e) == p.1,
        (None, None) => true,
        _ => false,
    }
}

/// How an executable statement-parse result corresponds to the model's.
pub open spec fn stmt_res(r: Option<(usize, Statement)>, sr: Option<(nat, StmtV)>) -> bool {
    match (r, sr) {
        (Some((j, st)), Some(p)) => j == p.0 && stmt_view(st) == p.1,
        (None, None) => true,
        _ => false,
    }
}

/// The views of a list of names.
pub open spec fn names_view(v: Seq<String>) -> Seq<Seq<char>> {
    Seq::new(v.len(), |i: int| v[i]@)
}

fn ws(s: &Vec<char>, i: usize) -> (j: usize)
    requires
        i <= s@.len(),
    ensures
        j == spec_ws(s@, i as nat),
        i <= j <= s@.len(),
    decreases s@.len() - i,
{
    if i < s.len() && (s[i] == ' ' || s[i] == '\n' || s[i] == '\t') {
        ws(s, i + 1)
    } else {
        i
    }
}

fn p_ident_end(s: &Vec<char>, p: usize) -> (end: usize)
    requires
        p <= s@.len(),
    ensures
        end == ident_end(s@, p as nat),
        p <= end <= s@.len(),
    decreases s@.len() - p,
{
    proof {
        crate::lexer::lemma_scan_ends(s@, p as nat);
    }
    if p < s.len() && crate::lexer::is_ident_char_exec(s[p]) {
        p_ident_end(s, p + 1)
    } else {
        p
    }
}

/// The identifier span starting at `i`, if one starts there.
fn p_ident(s: &Vec<char>, i: usize) -> (r: Option<usize>)
    requires
        i <= s@.len(),
    ensures
        match (r, spec_ident(s@, i as nat)) {
            (Some(e), Some(se)) => e == se && i < e <= s@.len(),
            (None, None) => true,
            _ => false,
        },
{
    if i < s.len() && crate::lexer::is_ident_start_exec(s[i]) {
        proof {
            crate::lexer::lemma_scan_ends(s@, i as nat + 1);
        }
        Some(p_ident_end(s, i + 1))
    } else {
        None
    }
}

/// The characters of the span `[from, to)` as an owned string.
fn collect_string(s: &Vec<char>, from: usize, to: usize) -> (r: String)
    requires
        from <= to <= s@.len(),
    ensures
        r@ == s@.subrange(from as int, to as int),
{
    let mut v: Vec<char> = Vec::new();
    let mut i: usize = from;
    while i < to
        invariant
            from <= i <= to <= s@.len(),
            v@ =~= s@.subrange(from as int, i as int),
        decreases to - i,
    {
        v.push(s[i]);
        i = i + 1;
        assert(v@ =~= s@.subrange(from as int, i as int));
    }
    crate::text::chars_to_string(&v)
}

fn is_base_digit_exec(c: char, base: u32) -> (r: bool)
    ensures
        r == is_base_digit(c, base as int),
{
    if base == 16 {
        ('0' <= c && c <= '9') || ('a' <= c && c <= 'f') || ('A' <= c && c <= 'F')
    } else if base == 8 {
        '0' <= c && c <= '7'
    } else if base == 2 {
        c == '0' || c == '1'
    } else {
        '0' <= c && c <= '9'
    }
}

fn base_digit_exec(c: char) -> (d: u8)
    ensures
        d == base_digit_val(c),
        d < 16,
{
    if c == '0' { 0 }
    else if c == '1' { 1 }
    else if c == '2' { 2 }
    else if c == '3' { 3 }
    else if c == '4' { 4 }
    else if c == '5' { 5 }
    else if c == '6' { 6 }
    else if c == '7' { 7 }
    else if c == '8' { 8 }
    else if c == '9' { 9 }
    else if c == 'a' || c == 'A' { 10 }
    else if c == 'b' || c == 'B' { 11 }
    else if c == 'c' || c == 'C' { 12 }
    else if c == 'd' || c == 'D' { 13 }
    else if c == 'e' || c == 'E' { 14 }
    else { 15 }
}

fn p_num_end(s: &Vec<char>, p: usize, base: u32) -> (end: usize)
    requires
        p <= s@.len(),
    ensures
        end == num_end(s@, p as nat, base as int),
        p <= end <= s@.len(),
    decreases s@.len() - p,
{
    proof {
        lemma_num_end(s@, p as nat, base as int);
    }
    if p < s.len() && (is_base_digit_exec(s[p], base) || s[p] == '_') {
        p_num_end(s, p + 1, base)
    } else {
        p
    }
}

/// The value of every numeral body is nonnegative.
pub proof fn lemma_radix_val_nonneg(text: Seq<char>, base: int)
    requires
        base >= 2,
    ensures
        radix_val(text, base) >= 0,
    decreases text,
{
    if text.len() > 0 {
        lemma_radix_val_nonneg(text.drop_last(), base);
        if text.last() != '_' {
            assert(radix_val(text.drop_last(), base) * base >= 0) by (nonlinear_arith)
                requires radix_val(text.drop_last(), base) >= 0 && base >= 2;
        }
    }
}

/// The value of the numeral body `[from, to)`, or `None` when it exceeds
/// `i64::MAX` (which rejects the numeral alternative).
fn radix_value(s: &Vec<char>, from: usize, to: usize, base: u32) -> (r: Option<i64>)
    requires
        from <= to <= s@.len(),
        2 <= base <= 16,
    ensures
        ({
            let v = radix_val(s@.subrange(from as int, to as int), base as int);
            match r {
                Some(x) => x == v,
                None => v > i64::MAX,
            }
        }),
{
    let ghost sq = s@;
    let mut acc: u64 = 0;
    let mut over: bool = false;
    let mut i: usize = from;
    proof {
        assert(sq.subrange(from as int, from as int) =~= Seq::<char>::empty());
    }
    while i < to
        invariant
            from <= i <= to <= sq.len(),
            sq == s@,
            2 <= base <= 16,
            !over ==> acc == radix_val(sq.subrange(from as int, i as int), base as int) && acc <= i64::MAX,
            over ==> radix_val(sq.subrange(from as int, i as int), base as int) > i64::MAX,
        decreases to - i,
    {
        let ghost prefix = sq.subrange(from as int, i as int);
        let ghost next = sq.subrange(from as int, i as int + 1);
        proof {
            assert(next.drop_last() =~= prefix);
            assert(next.last() == sq[i as int]);
            lemma_radix_val_nonneg(prefix, base as int);
            lemma_radix_val_nonneg(next, base as int);
        }
        let c = s[i];
        if c == '_' {
        } else {
            let d = base_digit_exec(c);
            if over {
                proof {
                    assert(radix_val(prefix, base as int) * base >= radix_val(prefix, base as int)) by (nonlinear_arith)
                        requires radix_val(prefix, base as int) >= 0 && base >= 2;
                }
            } else {
                if acc > (i64::MAX as u64 - d as u64) / (base as u64) {
                    proof {
                        let m: int = i64::MAX as int;
                        let dd: int = d as int;
                        let bb: int = base as int;
                        let x: int = m - dd;
                        let qq: int = x / bb;
                        vstd::arithmetic::div_mod::lemma_fundamental_div_mod(x, bb);
                        assert(x % bb < bb && x % bb >= 0) by {
                            vstd::arithmetic::div_mod::lemma_mod_division_less_than_divisor(x, bb);
                        }
                        assert(acc as int >= qq + 1);
                        assert(acc as int * bb >= (qq + 1) * bb) by (nonlinear_arith)
                            requires acc as int >= qq + 1 && bb >= 2;
                        assert((qq + 1) * bb == qq * bb + bb) by (nonlinear_arith);
                        assert(bb * qq == qq * bb) by (nonlinear_arith);
                        assert(acc as int * bb + dd > m);
                    }
                    over = true;
                } else {
                    proof {
                        let m: int = i64::MAX as int;
                        let dd: int = d as int;
                        let bb: int = base as int;
                        let x: int = m - dd;
                        let qq: int = x / bb;
                        vstd::arithmetic::div_mod::lemma_fundamental_div_mod(x, bb);
                        vstd::arithmetic::div_mod::lemma_mod_division_less_than_divisor(x, bb);
                        assert(acc as int <= qq);
                        assert(acc as int * bb <= qq * bb) by (nonlinear_arith)
                            requires acc as int <= qq && bb >= 2;
                        assert(bb * qq == qq * bb) by (nonlinear_arith);
                        assert(acc as int * bb + dd <= m);
                    }
                    acc = acc * (base as u64) + d as u64;
                }
            }
        }
        i = i + 1;
    }
    proof {
        assert(sq.subrange(from as int, to as int) == sq.subrange(from as int, i as int));
    }
    if over {
        None
    } else {
        Some(acc as i64)
    }
}

/// One prefixed numeral alternative.
fn p_prefixed_number(s: &Vec<char>, i: usize, p1: char, p2: char, base: u32) -> (r: Option<(usize, i64)>)
    requires
        i <= s@.len(),
        2 <= base <= 16,
    ensures
        match (r, spec_prefixed_number(s@, i as nat, p1, p2, base as int)) {
            (Some((e, v)), Some(p)) => e == p.0 && v == p.1 && i < e <= s@.len(),
            (None, None) => true,
            _ => false,
        },
{
    if i < s.len() && i + 1 < s.len() && i + 2 < s.len() && s[i] == '0' && (s[i + 1] == p1 || s[i + 1] == p2)
        && is_base_digit_exec(s[i + 2], base) {
        let end = p_num_end(s, i + 3, base);
        match radix_value(s, i + 2, end, base) {
            Some(v) => Some((end, v)),
            None => None,
        }
    } else {
        None
    }
}

fn p_decimal_number(s: &Vec<char>, i: usize) -> (r: Option<(usize, i64)>)
    requires
        i <= s@.len(),
    ensures
        match (r, spec_decimal_number(s@, i as nat)) {
            (Some((e, v)), Some(p)) => e == p.0 && v == p.1 && i < e <= s@.len(),
            (None, None) => true,
            _ => false,
        },
{
    if i < s.len() && is_base_digit_exec(s[i], 10) {
        let end = p_num_end(s, i + 1, 10);
        match radix_value(s, i, end, 10) {
            Some(v) => Some((end, v)),
            None => None,
        }
    } else {
        None
    }
}

/// A numeral at `i`: the four base alternatives in their fixed order.
fn p_number(s: &Vec<char>, i: usize) -> (r: Option<(usize, i64)>)
    requires
        i <= s@.len(),
    ensures
        match (r, spec_number(s@, i as nat)) {
            (Some((e, v)), Some(p)) => e == p.0 && v == p.1 && i < e <= s@.len(),
            (None, None) => true,
            _ => false,
        },
{
    let hex = p_prefixed_number(s, i, 'x', 'X', 16);
    if hex.is_some() {
        return hex;
    }
    let oct = p_prefixed_number(s, i, 'o', 'O', 8);
    if oct.is_some() {
        return oct;
    }
    let bin = p_prefixed_number(s, i, 'b', 'B', 2);
    if bin.is_some() {
        return bin;
    }
    p_decimal_number(s, i)
}

/// The binary operator symbol at `i`.
fn p_binop_at(s: &Vec<char>, i: usize) -> (r: Option<(usize, BinOp)>)
    requires
        i <= s@.len(),
    ensures
        match (r, spec_binop_at(s@, i as nat)) {
            (Some((m, op)), Some(p)) => m == p.0 && op == p.1 && i < m <= s@.len(),
            (None, None) => true,
            _ => false,
        },
{
    if i < s.len() {
        let c = s[i];
        if c == '+' { Some((i + 1, BinOp::Add)) }
        else if c == '-' { Some((i + 1, BinOp::Sub)) }
        else if c == '*' { Some((i + 1, BinOp::Mul)) }
        else if c == '/' { Some((i + 1, BinOp::Div)) }
        else if c == '<' && i + 1 < s.len() && s[i + 1] == '<' { Some((i + 2, BinOp::Sll)) }
        else if c == '>' && i + 1 < s.len() && s[i + 1] == '>' { Some((i + 2, BinOp::Srl)) }
        else if c == '&' { Some((i + 1, BinOp::BitAnd)) }
        else if c == '|' { Some((i + 1, BinOp::BitOr)) }
        else if c == '^' { Some((i + 1, BinOp::BitXor)) }
        else { None }
    } else {
        None
    }
}

/// A primitive expression at `i`.
fn p_primitive(s: &Vec<char>, i: usize) -> (r: Option<(usize, Expression)>)
    requires
        i <= s@.len(),
    ensures
        expr_res(r, spec_primitive(s@, i as nat)),
        r matches Some(p) ==> p.0 <= s@.len(),
    decreases s@.len() - i, 0nat,
{
    match p_ident(s, i) {
        Some(end) => {
            let name = collect_string(s, i, end);
            let e = Expression::Identifier(name);
            proof {
                assert(expr_view(e) == ExprV::Identifier(s@.subrange(i as int, end as int)));
            }
            Some((end, e))
        },
        None => {
            match p_number(s, i) {
                Some((end, v)) => {
                    let e = Expression::Number(v);
                    proof {
                        assert(expr_view(e) == ExprV::Number(v as int));
                    }
                    Some((end, e))
                },
                None => {
                    if i < s.len() && s[i] == '(' {
                        let j = ws(s, i + 1);
                        match p_expression(s, j) {
                            Some((q, e)) => {
                                if q <= s.len() {
                                    let k = ws(s, q);
                                    if k < s.len() && s[k] == ')' {
                                        Some((k + 1, e))
                                    } else {
                                        None
                                    }
                                } else {
                                    None
                                }
                            },
                            None => None,
                        }
                    } else {
                        None
                    }
                },
            }
        },
    }
}

/// The argument list of a call.
fn p_args(s: &Vec<char>, p: usize) -> (r: (usize, Vec<Expression>))
    requires
        p <= s@.len(),
    ensures
        ({
            let sr = spec_args(s@, p as nat);
            r.0 == sr.0 && crate::ast::exprs_view(r.1@) == sr.1 && r.0 <= s@.len()
        }),
    decreases s@.len() - p, 4nat,
{
    let j = ws(s, p);
    match p_expression(s, j) {
        Some((q, e)) => {
            if j < q && q <= s.len() {
                let r2 = ws(s, q);
                if p < r2 && r2 <= s.len() {
                    let mut acc: Vec<Expression> = Vec::new();
                    let ghost ev = expr_view(e);
                    acc.push(e);
                    proof {
                        assert(crate::ast::exprs_view(acc@) =~= seq![ev]) by {
                            crate::ast::lemma_exprs_view(acc@);
                        }
                    }
                    p_args_more(s, r2, acc)
                } else {
                    (p, Vec::new())
                }
            } else {
                (p, Vec::new())
            }
        },
        None => {
            proof {
                assert(crate::ast::exprs_view(Seq::<Expression>::empty()) =~= Seq::<ExprV>::empty());
            }
            (p, Vec::new())
        },
    }
}

/// Further `',' expression` groups of an argument list.
fn p_args_more(s: &Vec<char>, r0: usize, acc: Vec<Expression>) -> (r: (usize, Vec<Expression>))
    requires
        r0 <= s@.len(),
    ensures
        ({
            let sr = spec_args_more(s@, r0 as nat, crate::ast::exprs_view(acc@));
            r.0 == sr.0 && crate::ast::exprs_view(r.1@) == sr.1 && r.0 <= s@.len()
        }),
    decreases s@.len() - r0, 4nat,
{
    if r0 < s.len() && s[r0] == ',' {
        let j = ws(s, r0 + 1);
        match p_expression(s, j) {
            Some((q, e)) => {
                if j <= q && q <= s.len() {
                    let r2 = ws(s, q);
                    if r0 < r2 && r2 <= s.len() {
                        let mut acc2 = acc;
                        let ghost pre = acc2@;
                        let ghost ev = expr_view(e);
                        acc2.push(e);
                        proof {
                            crate::ast::lemma_exprs_view(pre);
                            crate::ast::lemma_exprs_view(acc2@);
                            assert(crate::ast::exprs_view(acc2@) =~= crate::ast::exprs_view(pre).push(ev));
                        }
                        p_args_more(s, r2, acc2)
                    } else {
                        (r0, acc)
                    }
                } else {
                    (r0, acc)
                }
            },
            None => (r0, acc),
        }
    } else {
        (r0, acc)
    }
}

/// A function call at `i`.
fn p_call_at(s: &Vec<char>, i: usize) -> (r: Option<(usize, Expression)>)
    requires
        i <= s@.len(),
    ensures
        expr_res(r, spec_call_at(s@, i as nat)),
        r matches Some(p) ==> p.0 <= s@.len(),
    decreases s@.len() - i, 1nat,
{
    match p_ident(s, i) {
        Some(idend) => {
            let k = ws(s, idend);
            if k < s.len() && s[k] == '(' {
                let (aend, args) = p_args(s, k + 1);
                if aend < s.len() && s[aend] == ')' {
                    let name = collect_string(s, i, idend);
                    let e = Expression::FunctionCall(name, args);
                    proof {
                        assert(expr_view(e) == ExprV::FunctionCall(s@.subrange(i as int, idend as int), crate::ast::exprs_view(e->FunctionCall_1@)));
                    }
                    Some((aend + 1, e))
                } else {
                    None
                }
            } else {
                None
            }
        },
        None => None,
    }
}

/// An expression at `i`, alternatives in the documented order.
fn p_expression(s: &Vec<char>, i: usize) -> (r: Option<(usize, Expression)>)
    requires
        i <= s@.len(),
    ensures
        expr_res(r, spec_expression(s@, i as nat)),
        r matches Some(p) ==> p.0 <= s@.len(),
    decreases s@.len() - i, 3nat,
{
    match p_primitive(s, i) {
        Some((j, left)) => {
            if i < j && j <= s.len() {
                let k = ws(s, j);
                match p_binop_at(s, k) {
                    Some((m, op)) => {
                        let n = ws(s, m);
                        if i < n && n <= s.len() {
                            match p_expression(s, n) {
                                Some((q, right)) => {
                                    let e = crate::compiler::make_binary(op, left, right);
                                    Some((q, e))
                                },
                                None => p_fallback(s, i, j, left),
                            }
                        } else {
                            None
                        }
                    },
                    None => p_fallback(s, i, j, left),
                }
            } else {
                None
            }
        },
        None => {
            if i < s.len() && s[i] == '*' {
                let j = ws(s, i + 1);
                match p_expression(s, j) {
                    Some((q, e)) => {
                        let d = Expression::Deref(Box::new(e));
                        proof {
                            assert(expr_view(d) == ExprV::Deref(Box::new(expr_view(*d->Deref_0))));
                        }
                        Some((q, d))
                    },
                    None => None,
                }
            } else {
                None
            }
        },
    }
}

/// The fallback alternatives after a successful primitive.
fn p_fallback(s: &Vec<char>, i: usize, j: usize, left: Expression) -> (r: Option<(usize, Expression)>)
    requires
        i <= s@.len(),
        j <= s@.len(),
    ensures
        expr_res(r, spec_fallback(s@, i as nat, j as nat, expr_view(left))),
        r matches Some(p) ==> p.0 <= s@.len(),
    decreases s@.len() - i, 2nat,
{
    match p_call_at(s, i) {
        Some(r) => Some(r),
        None => Some((j, left)),
    }
}

/// The parameter list of a function declaration.
fn p_params(s: &Vec<char>, p: usize) -> (r: (usize, Vec<String>))
    requires
        p <= s@.len(),
    ensures
        ({
            let sr = spec_params(s@, p as nat);
            r.0 == sr.0 && names_view(r.1@) == sr.1 && r.0 <= s@.len()
        }),
    decreases s@.len() - p,
{
    match p_ident(s, p) {
        Some(end) => {
            let mut acc: Vec<String> = Vec::new();
            let name = collect_string(s, p, end);
            let ghost nv = name@;
            acc.push(name);
            proof {
                assert(names_view(acc@) =~= seq![nv]);
            }
            p_params_more(s, end, acc)
        },
        None => {
            proof {
                assert(names_view(Seq::<String>::empty()) =~= Seq::<Seq<char>>::empty());
            }
            (p, Vec::new())
        },
    }
}

fn p_params_more(s: &Vec<char>, r0: usize, acc: Vec<String>) -> (r: (usize, Vec<String>))
    requires
        r0 <= s@.len(),
    ensures
        ({
            let sr = spec_params_more(s@, r0 as nat, names_view(acc@));
            r.0 == sr.0 && names_view(r.1@) == sr.1 && r.0 <= s@.len()
        }),
    decreases s@.len() - r0,
{
    if r0 < s.len() && s[r0] == ',' {
        match p_ident(s, r0 + 1) {
            Some(end) => {
                let mut acc2 = acc;
                let name = collect_string(s, r0 + 1, end);
                let ghost av = names_view(acc2@);
                let ghost nv = name@;
                acc2.push(name);
                proof {
                    assert(names_view(acc2@) =~= av.push(nv));
                }
                p_params_more(s, end, acc2)
            },
            None => (r0, acc),
        }
    } else {
        (r0, acc)
    }
}

/// A block at `j`.
fn p_block(s: &Vec<char>, j: usize) -> (r: Option<(usize, Statement)>)
    requires
        j <= s@.len(),
    ensures
        stmt_res(r, spec_block(s@, j as nat)),
        r matches Some(p) ==> p.0 <= s@.len(),
    decreases s@.len() - j, 1nat,
{
    if j < s.len() && s[j] == '{' {
        let k = ws(s, j + 1);
        let (send, stmts) = p_stmts(s, k);
        if send < k {
            return None;
        }
        let k2 = ws(s, send);
        if k2 < s.len() && s[k2] == '}' {
            let b = Statement::Block(stmts);
            proof {
                assert(stmt_view(b) == StmtV::Block(crate::ast::stmts_view(b->Block_0@)));
            }
            Some((k2 + 1, b))
        } else {
            None
        }
    } else {
        None
    }
}

/// An assignment at `j`.
fn p_assignment(s: &Vec<char>, j: usize) -> (r: Option<(usize, Statement)>)
    requires
        j <= s@.len(),
    ensures
        stmt_res(r, spec_assignment(s@, j as nat)),
        r matches Some(p) ==> p.0 <= s@.len(),
    decreases s@.len() - j, 1nat,
{
    match p_ident(s, j) {
        Some(idend) => {
            let k = ws(s, idend);
            let opc: Option<char> = if k < s.len() && (s[k] == '+' || s[k] == '-' || s[k] == '/' || s[k] == '*') {
                Some(s[k])
            } else {
                None
            };
            let eq = if opc.is_some() { k + 1 } else { k };
            if eq < s.len() && s[eq] == '=' {
                let m = ws(s, eq + 1);
                match p_expression(s, m) {
                    Some((q, e)) => {
                        if q <= s.len() {
                            let r2 = ws(s, q);
                            if r2 < s.len() && s[r2] == ';' {
                                let name = collect_string(s, j, idend);
                                let st = match opc {
                                    Some(c) => {
                                        if c == '+' { Statement::AddAssign(name, e) }
                                        else if c == '-' { Statement::SubAssign(name, e) }
                                        else if c == '*' { Statement::MulAssign(name, e) }
                                        else { Statement::DivAssign(name, e) }
                                    },
                                    None => Statement::Assign(name, e),
                                };
                                Some((r2 + 1, st))
                            } else {
                                None
                            }
                        } else {
                            None
                        }
                    },
                    None => None,
                }
            } else {
                None
            }
        },
        None => None,
    }
}

/// A function declaration at `j`.
fn p_function(s: &Vec<char>, j: usize) -> (r: Option<(usize, Statement)>)
    requires
        j <= s@.len(),
    ensures
        stmt_res(r, spec_function(s@, j as nat)),
        r matches Some(p) ==> p.0 <= s@.len(),
    decreases s@.len() - j, 1nat,
{
    if j < s.len() && j + 1 < s.len() && s[j] == 'f' && s[j + 1] == 'n' {
        let k = ws(s, j + 2);
        match p_ident(s, k) {
            Some(idend) => {
                let k2 = ws(s, idend);
                if k2 < s.len() && s[k2] == '(' {
                    let (pend, params) = p_params(s, k2 + 1);
                    if (k2 < pend && pend <= s.len()) || pend == k2 + 1 {
                        if pend < s.len() && s[pend] == ')' {
                            let k3 = ws(s, pend + 1);
                            match p_block(s, k3) {
                                Some((bend, body)) => {
                                    let name = collect_string(s, k, idend);
                                    let st = Statement::FunctionDeclaration(name, params, Box::new(body));
                                    proof {
                                        assert(stmt_view(st) == StmtV::FunctionDeclaration(
                                            s@.subrange(k as int, idend as int),
                                            names_view(st->FunctionDeclaration_1@),
                                            Box::new(stmt_view(*st->FunctionDeclaration_2)),
                                        ));
                                    }
                                    Some((bend, st))
                                },
                                None => None,
                            }
                        } else {
                            None
                        }
                    } else {
                        None
                    }
                } else {
                    None
                }
            },
            None => None,
        }
    } else {
        None
    }
}

/// A statement at `i`: whitespace, one of the three forms, whitespace.
fn p_statement(s: &Vec<char>, i: usize) -> (r: Option<(usize, Statement)>)
    requires
        i <= s@.len(),
    ensures
        stmt_res(r, spec_statement(s@, i as nat)),
        r matches Some(p) ==> p.0 <= s@.len(),
    decreases s@.len() - i, 2nat,
{
    let j = ws(s, i);
    let inner = match p_block(s, j) {
        Some(x) => Some(x),
        None => match p_assignment(s, j) {
            Some(x) => Some(x),
            None => p_function(s, j),
        },
    };
    match inner {
        Some((q, st)) => {
            Some((ws(s, q), st))
        },
        None => None,
    }
}

/// As many statements as match, one after another.
fn p_stmts(s: &Vec<char>, p: usize) -> (r: (usize, Vec<Statement>))
    requires
        p <= s@.len(),
    ensures
        ({
            let sr = spec_stmts(s@, p as nat);
            r.0 == sr.0 && crate::ast::stmts_view(r.1@) == sr.1 && r.0 <= s@.len()
        }),
    decreases s@.len() - p, 3nat,
{
    match p_statement(s, p) {
        Some((q, st)) => {
            if p < q && q <= s.len() {
                let (rest_end, rest) = p_stmts(s, q);
                let ghost stv = stmt_view(st);
                let ghost restv = crate::ast::stmts_view(rest@);
                let mut out = rest;
                let ghost pre = out@;
                out.insert(0, st);
                proof {
                    crate::ast::lemma_stmts_view(pre);
                    crate::ast::lemma_stmts_view(out@);
                    assert(crate::ast::stmts_view(out@) =~= seq![stv] + restv);
                }
                (rest_end, out)
            } else {
                proof {
                    assert(crate::ast::stmts_view(Seq::<Statement>::empty()) =~= Seq::<StmtV>::empty());
                }
                (p, Vec::new())
            }
        },
        None => {
            proof {
                assert(crate::ast::stmts_view(Seq::<Statement>::empty()) =~= Seq::<StmtV>::empty());
            }
            (p, Vec::new())
        },
    }
}

/// The zero-based line and column of position `q`.
fn line_col_of(s: &Vec<char>, q: usize) -> (r: (usize, usize))
    requires
        q <= s@.len(),
    ensures
        r.0 == line_of(s@, q as nat),
        r.1 == q - line_start_of(s@, q as nat),
{
    let mut line: usize = 0;
    let mut ls: usize = 0;
    let mut i: usize = 0;
    while i < q
        invariant
            i <= q <= s@.len(),
            line == line_of(s@, i as nat),
            ls == line_start_of(s@, i as nat),
            line <= i,
            ls <= i,
        decreases q - i,
    {
        if s[i] == '\n' {
            line = line + 1;
            ls = i + 1;
        }
        i = i + 1;
    }
    proof {
        lemma_line_start(s@, q as nat);
    }
    (line, q - ls)
}

/// Parses a whole source text into the root block of its statements.
/// Parsing must consume the entire input: trailing unparseable text fails
/// with the zero-based line and column where the statements stopped.
pub fn parse(input: &str) -> (r: Result<Statement, CompilationError>)
    ensures
        match spec_parse(input@) {
            Ok(st) => r matches Ok(ast) && stmt_view(ast) == st,
            Err(pos) => r matches Err(err) && err.line == pos.0 && err.column == pos.1
                && err.message@ == "Failed to parse input"@,
        },
{
    let v = str_to_chars(input);
    let (q, stmts) = p_stmts(&v, 0);
    if q == v.len() {
        let ast = Statement::Block(stmts);
        proof {
            assert(stmt_view(ast) == StmtV::Block(crate::ast::stmts_view(ast->Block_0@)));
        }
        Ok(ast)
    } else {
        let (line, col) = line_col_of(&v, q);
        Err(CompilationError {
            message: String::from_str("Failed to parse input"),
            line,
            column: col,
        })
    }
}


/// Every declaration in a parsed block has a block body: the grammar's
/// `function` rule only ever builds one from a parsed block.
pub proof fn lemma_block_bodies(s: Seq<char>, j: nat)
    requires
        j <= s.len(),
    ensures
        spec_block(s, j) matches Some((q, st))
            ==> st is Block && crate::compiler::decl_bodies_blocks(st),
    decreases s.len() - j, 1nat,
{
    if j < s.len() && s[j as int] == '{' {
        let k = spec_ws(s, j + 1);
        if j < k <= s.len() {
            lemma_stmts_bodies(s, k);
            let (send, stmts) = spec_stmts(s, k);
            if k <= send <= s.len() {
                assert(spec_block(s, j) matches Some((q, st)) ==> st == StmtV::Block(stmts));
            }
        }
    }
}

pub proof fn lemma_function_bodies(s: Seq<char>, j: nat)
    requires
        j <= s.len(),
    ensures
        spec_function(s, j) matches Some((q, st)) ==> crate::compiler::decl_bodies_blocks(st),
    decreases s.len() - j, 1nat,
{
    if j + 1 < s.len() && s[j as int] == 'f' && s[j as int + 1] == 'n' {
        let k = spec_ws(s, j + 2);
        if j < k <= s.len() {
            match spec_ident(s, k) {
                Some(idend) => {
                    if k < idend <= s.len() {
                        let name = s.subrange(k as int, idend as int);
                        let k2 = spec_ws(s, idend);
                        if k2 < s.len() && s[k2 as int] == '(' {
                            let (pend, params) = spec_params(s, (k2 + 1) as nat);
                            if k2 < pend <= s.len() || pend == k2 + 1 {
                                if pend < s.len() && s[pend as int] == ')' {
                                    let k3 = spec_ws(s, pend + 1);
                                    if j < k3 <= s.len() {
                                        lemma_block_bodies(s, k3);
                                        match spec_block(s, k3) {
                                            Some((bend, body)) => {
                                                assert(crate::compiler::decl_bodies_blocks(
                                                    StmtV::FunctionDeclaration(name, params, Box::new(body)),
                                                ));
                                            },
                                            None => {},
                                        }
                                    }
                                }
                            }
                        }
                    }
                },
                None => {},
            }
        }
    }
}

pub proof fn lemma_statement_bodies(s: Seq<char>, i: nat)
    requires
        i <= s.len(),
    ensures
        spec_statement(s, i) matches Some((q, st)) ==> crate::compiler::decl_bodies_blocks(st),
    decreases s.len() - i, 2nat,
{
    let j = spec_ws(s, i);
    if i <= j <= s.len() {
        lemma_block_bodies(s, j);
        lemma_function_bodies(s, j);
        if spec_block(s, j) is None && spec_assignment(s, j) is None {
        } else if spec_block(s, j) is None {
            match spec_assignment(s, j) {
                Some((q, st)) => {
                    assert(crate::compiler::decl_bodies_blocks(st)) by {
                        assert(!(st is Block) && !(st is FunctionDeclaration) && !(st is SubroutineDeclaration));
                    }
                },
                None => {},
            }
        }
    }
}

pub proof fn lemma_stmts_bodies(s: Seq<char>, p: nat)
    requires
        p <= s.len(),
    ensures
        forall|i: int| 0 <= i < spec_stmts(s, p).1.len()
            ==> crate::compiler::decl_bodies_blocks(#[trigger] spec_stmts(s, p).1[i]),
    decreases s.len() - p, 3nat,
{
    lemma_statement_bodies(s, p);
    match spec_statement(s, p) {
        Some((q, st)) => {
            if p < q <= s.len() {
                lemma_stmts_bodies(s, q);
                let (rest_end, rest) = spec_stmts(s, q);
                assert forall|i: int| 0 <= i < spec_stmts(s, p).1.len()
                    implies crate::compiler::decl_bodies_blocks(#[trigger] spec_stmts(s, p).1[i]) by {
                    if i == 0 {
                        assert(spec_stmts(s, p).1[0] == st);
                    } else {
                        assert(spec_stmts(s, p).1[i] == rest[i - 1]);
                    }
                }
            }
        },
        None => {},
    }
}

/// Every tree the parser accepts has block-bodied declarations, so the
/// flattening-simplicity law applies to parsed programs whose assignments
/// are built from atoms and binary operations.
pub proof fn lemma_parse_block_bodies(s: Seq<char>)
    ensures
        spec_parse(s) matches Ok(st) ==> crate::compiler::decl_bodies_blocks(st),
{
    lemma_stmts_bodies(s, 0);
}

} // verus!
