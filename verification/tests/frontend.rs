use compiler::ast::{Expression, Statement};
use compiler::compiler::{ast_pass_0, ast_pass_1, ast_pass_2, compile, Context};
use compiler::lexer::{lex, Assignment, Comparison, Keyword, LexerConfiguration, Operator, Token};
use compiler::parser::parse;
use compiler::ir::{Instruction, Operand, PseudoInstruction, Variable};
use compiler::CompilationError;

fn is_atom(e: &Expression) -> bool {
    matches!(e, Expression::Number(_) | Expression::Identifier(_))
}

fn is_simple(e: &Expression) -> bool {
    match e {
        Expression::Add(l, r)
        | Expression::Sub(l, r)
        | Expression::Mul(l, r)
        | Expression::Div(l, r)
        | Expression::Sll(l, r)
        | Expression::Srl(l, r)
        | Expression::Sra(l, r)
        | Expression::BitAnd(l, r)
        | Expression::BitOr(l, r)
        | Expression::BitXor(l, r) => is_atom(l) && is_atom(r),
        _ => is_atom(e),
    }
}

fn scan_all_simple(s: &Statement) {
    match s {
        Statement::Block(inner) => inner.iter().for_each(scan_all_simple),
        Statement::Assign(_, e) => assert!(is_simple(e), "not simple: {:?}", e),
        Statement::FunctionDeclaration(_, _, body) => scan_all_simple(body),
        Statement::SubroutineDeclaration(_, body) => scan_all_simple(body),
        _ => {}
    }
}

fn scan_no_compound(s: &Statement) {
    match s {
        Statement::Block(inner) => inner.iter().for_each(scan_no_compound),
        Statement::AddAssign(_, _)
        | Statement::SubAssign(_, _)
        | Statement::MulAssign(_, _)
        | Statement::DivAssign(_, _) => panic!("compound assignment left: {:?}", s),
        Statement::FunctionDeclaration(_, _, body) => scan_no_compound(body),
        Statement::SubroutineDeclaration(_, body) => scan_no_compound(body),
        _ => {}
    }
}

fn parse_ok(src: &str) -> Vec<Statement> {
    match parse(src).expect("parse should succeed") {
        Statement::Block(stmts) => stmts,
        _ => panic!("parser must return a root block"),
    }
}

#[test]
fn lex_simple_assignment() {
    let tokens = lex("x = 1;", LexerConfiguration {}).unwrap();
    assert_eq!(tokens.len(), 4);
    assert!(matches!(&tokens[0], Token::Identifier(s) if s == "x"));
    assert!(matches!(tokens[1], Token::Assignment(Assignment::Assign)));
    assert!(matches!(tokens[2], Token::Number(1)));
    assert!(matches!(tokens[3], Token::Semicolon));
}

#[test]
fn lex_keywords_and_identifiers() {
    let tokens = lex("let letx return _a9", LexerConfiguration {}).unwrap();
    assert_eq!(tokens.len(), 4);
    assert!(matches!(tokens[0], Token::Keyword(Keyword::Let)));
    assert!(matches!(&tokens[1], Token::Identifier(s) if s == "letx"));
    assert!(matches!(tokens[2], Token::Keyword(Keyword::Return)));
    assert!(matches!(&tokens[3], Token::Identifier(s) if s == "_a9"));
}

#[test]
fn lex_two_character_symbols() {
    let tokens = lex("a == b += 1", LexerConfiguration {}).unwrap();
    assert_eq!(tokens.len(), 5);
    assert!(matches!(tokens[1], Token::Comparison(Comparison::Equals)));
    assert!(matches!(tokens[3], Token::Assignment(Assignment::AddAssign)));
}

#[test]
fn lex_operators_punctuation_and_character() {
    let tokens = lex("+-*/(){};:@ 'q' <>", LexerConfiguration {}).unwrap();
    assert_eq!(tokens.len(), 14);
    assert!(matches!(tokens[0], Token::Operator(Operator::Plus)));
    assert!(matches!(tokens[1], Token::Operator(Operator::Minus)));
    assert!(matches!(tokens[2], Token::Operator(Operator::Star)));
    assert!(matches!(tokens[3], Token::Operator(Operator::Slash)));
    assert!(matches!(tokens[4], Token::OpenParenthesis));
    assert!(matches!(tokens[5], Token::CloseParenthesis));
    assert!(matches!(tokens[6], Token::OpenBrace));
    assert!(matches!(tokens[7], Token::CloseBrace));
    assert!(matches!(tokens[8], Token::Semicolon));
    assert!(matches!(tokens[9], Token::Colon));
    assert!(matches!(tokens[10], Token::AtSign));
    assert!(matches!(tokens[11], Token::Character('q')));
    assert!(matches!(tokens[12], Token::Comparison(Comparison::LessThan)));
    assert!(matches!(tokens[13], Token::Comparison(Comparison::GreaterThan)));
}

#[test]
fn lex_unterminated_character_positions_at_opening_quote() {
    let err = lex("a = 'x;", LexerConfiguration {}).unwrap_err();
    assert_eq!(err.line, 0);
    assert_eq!(err.column, 4);
    assert_eq!(err.message, "Expected closing single quote");
}

#[test]
fn lex_unterminated_character_on_later_line() {
    let err = lex("x\ny = 'ab", LexerConfiguration {}).unwrap_err();
    assert_eq!(err.line, 1);
    assert_eq!(err.column, 4);
}

#[test]
fn lex_empty_character_literal_is_an_error() {
    let err = lex("''", LexerConfiguration {}).unwrap_err();
    assert_eq!(err.line, 0);
    assert_eq!(err.column, 0);
}

#[test]
fn lex_number_out_of_range() {
    let err = lex("x = 3000000000;", LexerConfiguration {}).unwrap_err();
    assert_eq!(err.line, 0);
    assert_eq!(err.column, 4);
    let ok = lex("x = 2147483647;", LexerConfiguration {}).unwrap();
    assert!(matches!(ok[2], Token::Number(2147483647)));
}

#[test]
fn lex_skips_unrecognized_characters() {
    let tokens = lex("a ? b", LexerConfiguration {}).unwrap();
    assert_eq!(tokens.len(), 2);
}

#[test]
fn parse_simple_assignment() {
    let stmts = parse_ok("a = 1;");
    assert_eq!(stmts.len(), 1);
    match &stmts[0] {
        Statement::Assign(name, Expression::Number(1)) => assert_eq!(name, "a"),
        other => panic!("unexpected statement: {:?}", other),
    }
}

#[test]
fn parse_compound_assignment_variants() {
    let stmts = parse_ok("a += 1; b -= 2; c *= 3; d /= 4;");
    assert_eq!(stmts.len(), 4);
    assert!(matches!(&stmts[0], Statement::AddAssign(n, Expression::Number(1)) if n == "a"));
    assert!(matches!(&stmts[1], Statement::SubAssign(n, Expression::Number(2)) if n == "b"));
    assert!(matches!(&stmts[2], Statement::MulAssign(n, Expression::Number(3)) if n == "c"));
    assert!(matches!(&stmts[3], Statement::DivAssign(n, Expression::Number(4)) if n == "d"));
}

#[test]
fn parse_right_associative_chain() {
    // fixed-order alternation recurses into the full expression on the
    // right, so a + b * c groups as a + (b * c)
    let stmts = parse_ok("x = a + b * c;");
    match &stmts[0] {
        Statement::Assign(_, Expression::Add(l, r)) => {
            assert!(matches!(&**l, Expression::Identifier(n) if n == "a"));
            match &**r {
                Expression::Mul(bl, br) => {
                    assert!(matches!(&**bl, Expression::Identifier(n) if n == "b"));
                    assert!(matches!(&**br, Expression::Identifier(n) if n == "c"));
                }
                other => panic!("unexpected right operand: {:?}", other),
            }
        }
        other => panic!("unexpected statement: {:?}", other),
    }
}

#[test]
fn parse_function_declaration() {
    let stmts = parse_ok("fn f(x) { a = x + 1; }");
    assert_eq!(stmts.len(), 1);
    match &stmts[0] {
        Statement::FunctionDeclaration(name, params, body) => {
            assert_eq!(name, "f");
            assert_eq!(params.len(), 1);
            assert_eq!(params[0], "x");
            match &**body {
                Statement::Block(inner) => {
                    assert_eq!(inner.len(), 1);
                    match &inner[0] {
                        Statement::Assign(target, Expression::Add(l, r)) => {
                            assert_eq!(target, "a");
                            assert!(matches!(&**l, Expression::Identifier(n) if n == "x"));
                            assert!(matches!(&**r, Expression::Number(1)));
                        }
                        other => panic!("unexpected body statement: {:?}", other),
                    }
                }
                other => panic!("function body must be a block: {:?}", other),
            }
        }
        other => panic!("unexpected statement: {:?}", other),
    }
}

#[test]
fn parse_call_dereference_and_block() {
    let stmts = parse_ok("{ a = f(b, c); d = *p; }");
    match &stmts[0] {
        Statement::Block(inner) => {
            match &inner[0] {
                Statement::Assign(_, Expression::FunctionCall(name, args)) => {
                    assert_eq!(name, "f");
                    assert_eq!(args.len(), 2);
                    assert!(matches!(&args[0], Expression::Identifier(n) if n == "b"));
                    assert!(matches!(&args[1], Expression::Identifier(n) if n == "c"));
                }
                other => panic!("unexpected call statement: {:?}", other),
            }
            match &inner[1] {
                Statement::Assign(_, Expression::Deref(e)) => {
                    assert!(matches!(&**e, Expression::Identifier(n) if n == "p"));
                }
                other => panic!("unexpected dereference statement: {:?}", other),
            }
        }
        other => panic!("unexpected statement: {:?}", other),
    }
}

#[test]
fn parse_numeric_bases_and_separators() {
    // 0x1F is 31 and 0b101 is 5
    let stmts = parse_ok("a = 0x1F + 0b101; b = 0o17; c = 1_000;");
    match &stmts[0] {
        Statement::Assign(_, Expression::Add(l, r)) => {
            assert!(matches!(&**l, Expression::Number(31)));
            assert!(matches!(&**r, Expression::Number(5)));
        }
        other => panic!("unexpected statement: {:?}", other),
    }
    assert!(matches!(&stmts[1], Statement::Assign(_, Expression::Number(15))));
    assert!(matches!(&stmts[2], Statement::Assign(_, Expression::Number(1000))));
}

#[test]
fn parse_shift_and_bitwise_operators() {
    let stmts = parse_ok("a = b << 2; c = d >> 1; e = f & g; h = i | j; k = l ^ m;");
    assert!(matches!(&stmts[0], Statement::Assign(_, Expression::Sll(_, _))));
    assert!(matches!(&stmts[1], Statement::Assign(_, Expression::Srl(_, _))));
    assert!(matches!(&stmts[2], Statement::Assign(_, Expression::BitAnd(_, _))));
    assert!(matches!(&stmts[3], Statement::Assign(_, Expression::BitOr(_, _))));
    assert!(matches!(&stmts[4], Statement::Assign(_, Expression::BitXor(_, _))));
}

#[test]
fn parse_rejects_trailing_garbage() {
    // input not fully consumed
    let err = parse("a = 1; )").unwrap_err();
    assert_eq!(err.line, 0);
    assert_eq!(err.column, 7);
    assert_eq!(err.message, "Failed to parse input");
}

#[test]
fn parse_error_position_counts_lines() {
    let err = parse("a = 1;\nb = 2;\n???").unwrap_err();
    assert_eq!(err.line, 2);
    assert_eq!(err.column, 0);
}

#[test]
fn pass_0_desugars_compound_assignment() {
    // a += 1 becomes a = a + 1
    let stmts = parse_ok("a += 1;");
    let desugared = ast_pass_0(stmts.into_iter().next().unwrap()).unwrap();
    match desugared {
        Statement::Assign(name, Expression::Add(l, r)) => {
            assert_eq!(name, "a");
            assert!(matches!(&*l, Expression::Identifier(n) if n == "a"));
            assert!(matches!(&*r, Expression::Number(1)));
        }
        other => panic!("unexpected desugaring: {:?}", other),
    }
}

#[test]
fn pass_0_desugars_every_compound_variant_everywhere() {
    let root = parse("x -= y; { z *= 2; } fn g(a) { b /= 3; }").unwrap();
    let desugared = ast_pass_0(root).unwrap();
    scan_no_compound(&desugared);
    match &desugared {
        Statement::Block(inner) => {
            assert!(matches!(&inner[0], Statement::Assign(n, Expression::Sub(_, _)) if n == "x"));
        }
        other => panic!("unexpected root: {:?}", other),
    }
}

#[test]
fn pass_1_flattens_nested_expression_in_order() {
    // two temporaries: left sub-expression first, then the combining one
    let root = parse("a = (x + y) + z;").unwrap();
    let flattened = compile(root).unwrap();
    assert_eq!(flattened.len(), 1);
    let inner = match &flattened[0] {
        Statement::Block(inner) => inner,
        other => panic!("unexpected root: {:?}", other),
    };
    assert_eq!(inner.len(), 3);
    match &inner[0] {
        Statement::Assign(name, Expression::Add(l, r)) => {
            assert_eq!(name, "__temp0");
            assert!(matches!(&**l, Expression::Identifier(n) if n == "x"));
            assert!(matches!(&**r, Expression::Identifier(n) if n == "y"));
        }
        other => panic!("unexpected first statement: {:?}", other),
    }
    match &inner[1] {
        Statement::Assign(name, Expression::Add(l, r)) => {
            assert_eq!(name, "__temp1");
            assert!(matches!(&**l, Expression::Identifier(n) if n == "__temp0"));
            assert!(matches!(&**r, Expression::Identifier(n) if n == "z"));
        }
        other => panic!("unexpected second statement: {:?}", other),
    }
    match &inner[2] {
        Statement::Assign(name, Expression::Identifier(n)) => {
            assert_eq!(name, "a");
            assert_eq!(n, "__temp1");
        }
        other => panic!("unexpected final statement: {:?}", other),
    }
}

#[test]
fn pass_1_output_is_simple_everywhere() {
    let root = parse("a = ((p + q) * (r - s)) / t; fn f(x) { b = x * x * x; }").unwrap();
    let flattened = compile(root).unwrap();
    for s in &flattened {
        scan_all_simple(s);
    }
}

#[test]
fn pass_1_keeps_flat_assignments_unchanged() {
    // re-flattening a list whose assignments carry atoms is a no-op
    let root = parse("a = 1; b = a;").unwrap();
    let mut context = Context::new();
    let out = ast_pass_1(&mut context, vec![root]).unwrap();
    assert_eq!(context.temporary_counter, 0);
    let inner = match &out[0] {
        Statement::Block(inner) => inner,
        other => panic!("unexpected root: {:?}", other),
    };
    assert!(matches!(&inner[0], Statement::Assign(n, Expression::Number(1)) if n == "a"));
    assert!(matches!(&inner[1], Statement::Assign(n, Expression::Identifier(v)) if n == "b" && v == "a"));
}

#[test]
fn pass_2_behaves_as_pass_1() {
    let root = parse("a = x + y;").unwrap();
    let mut context = Context::new();
    let out = ast_pass_2(&mut context, vec![root]).unwrap();
    assert_eq!(context.temporary_counter, 1);
    let inner = match &out[0] {
        Statement::Block(inner) => inner,
        other => panic!("unexpected root: {:?}", other),
    };
    assert_eq!(inner.len(), 2);
    assert!(matches!(&inner[0], Statement::Assign(n, _) if n == "__temp0"));
}

#[test]
fn temporaries_are_fresh_and_increasing() {
    let mut context = Context::new();
    let a = context.new_temporary();
    let b = context.new_temporary();
    let c = context.new_temporary();
    assert_eq!(a, "__temp0");
    assert_eq!(b, "__temp1");
    assert_eq!(c, "__temp2");
    assert_ne!(a, b);
    assert_ne!(b, c);
    assert_eq!(context.temporary_counter, 3);
}

#[test]
fn compilation_error_new_keeps_fields() {
    let err = CompilationError::new(String::from("boom"), 3, 9);
    assert_eq!(err.message, "boom");
    assert_eq!(err.line, 3);
    assert_eq!(err.column, 9);
}

#[test]
fn whitespace_and_newlines_are_skipped() {
    let stmts = parse_ok("  a\t=\n1 ;\n  b = 2;");
    assert_eq!(stmts.len(), 2);
}

#[test]
fn empty_program_parses_to_empty_block() {
    let stmts = parse_ok("");
    assert_eq!(stmts.len(), 0);
}

// A small reference evaluator over the arithmetic subset, used to compare
// the behavior of a program before and after the pipeline.
fn eval_arith(env: &std::collections::HashMap<String, i64>, e: &Expression) -> i64 {
    match e {
        Expression::Number(n) => *n,
        Expression::Identifier(x) => *env.get(x).unwrap_or(&0),
        Expression::Add(l, r) => eval_arith(env, l) + eval_arith(env, r),
        Expression::Sub(l, r) => eval_arith(env, l) - eval_arith(env, r),
        Expression::Mul(l, r) => eval_arith(env, l) * eval_arith(env, r),
        other => panic!("evaluator only covers the arithmetic subset: {:?}", other),
    }
}

fn run_arith(env: &mut std::collections::HashMap<String, i64>, s: &Statement) {
    match s {
        Statement::Block(inner) => inner.iter().for_each(|st| run_arith(env, st)),
        Statement::Assign(n, e) => {
            let v = eval_arith(env, e);
            env.insert(n.clone(), v);
        }
        Statement::AddAssign(n, e) => {
            let v = *env.get(n).unwrap_or(&0) + eval_arith(env, e);
            env.insert(n.clone(), v);
        }
        other => panic!("evaluator only covers the arithmetic subset: {:?}", other),
    }
}

#[test]
fn flattening_preserves_evaluation() {
    // nested arithmetic evaluates identically before and after the
    // pipeline: a = (x + y) + z with x=1, y=2, z=3 gives a=6 both ways
    let original = parse("a = (x + y) + z;").unwrap();
    let flattened = compile(parse("a = (x + y) + z;").unwrap()).unwrap();
    let mut before = std::collections::HashMap::new();
    before.insert(String::from("x"), 1);
    before.insert(String::from("y"), 2);
    before.insert(String::from("z"), 3);
    let mut after = before.clone();
    run_arith(&mut before, &original);
    for s in &flattened {
        run_arith(&mut after, s);
    }
    assert_eq!(before.get("a"), Some(&6));
    assert_eq!(after.get("a"), Some(&6));
}

#[test]
fn compound_assignment_evaluates_after_desugaring() {
    // a += 1 with prior binding a=5 evaluates to a=6 after the rewrite
    let root = parse("a += 1;").unwrap();
    let desugared = ast_pass_0(root).unwrap();
    let mut env = std::collections::HashMap::new();
    env.insert(String::from("a"), 5);
    run_arith(&mut env, &desugared);
    assert_eq!(env.get("a"), Some(&6));
}

#[test]
fn numeric_literals_flatten_to_one_temporary() {
    let flattened = compile(parse("a = 0x1F + 0b101;").unwrap()).unwrap();
    let inner = match &flattened[0] {
        Statement::Block(inner) => inner,
        other => panic!("unexpected root: {:?}", other),
    };
    assert_eq!(inner.len(), 2);
    match &inner[0] {
        Statement::Assign(name, Expression::Add(l, r)) => {
            assert_eq!(name, "__temp0");
            assert!(matches!(&**l, Expression::Number(31)));
            assert!(matches!(&**r, Expression::Number(5)));
        }
        other => panic!("unexpected first statement: {:?}", other),
    }
    assert!(matches!(&inner[1], Statement::Assign(n, Expression::Identifier(t)) if n == "a" && t == "__temp0"));
}

#[test]
fn instruction_data_carries_its_fields() {
    let v = Variable { name: String::from("r1") };
    let p = PseudoInstruction::Li(v, 7);
    assert!(matches!(&p, PseudoInstruction::Li(var, 7) if var.name == "r1"));
    let i = Instruction::Beqz(Operand::Direct(3), Operand::Identifier(String::from("loop_top")));
    match i {
        Instruction::Beqz(Operand::Direct(3), Operand::Identifier(label)) => {
            assert_eq!(label, "loop_top");
        }
        other => panic!("unexpected instruction: {:?}", other),
    }
}
