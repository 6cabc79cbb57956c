use calculator::errors::{DeclarationError, EvalError, LexError, ParseError};
use calculator::function::Function;
use calculator::interpreter::{evaluate, Context};
use calculator::num::Num;
use calculator::token::{tokenize, Ident, Operator, Token};

fn lex(s: &str) -> Vec<Token> {
    tokenize(s.to_owned()).unwrap()
}

#[test]
fn precedence_and_associativity() {
    let tokens = lex("10 + 11/2 * (2 ^ 4) /    4");
    assert_eq!(tokens.len(), 13);
    let ctx = Context::new();
    assert_eq!(evaluate(&tokens, &ctx).unwrap(), Num::from_u64(32));
    // power is right-associative: 2 ^ 3 ^ 2 = 2 ^ 9 = 512
    assert_eq!(
        evaluate(&lex("2 ^ 3 ^ 2"), &ctx).unwrap(),
        Num::from_u64(512)
    );
    // subtraction and division are left-associative
    assert_eq!(evaluate(&lex("10 - 4 - 3"), &ctx).unwrap(), Num::from_u64(3));
    assert_eq!(evaluate(&lex("16 / 4 / 2"), &ctx).unwrap(), Num::from_u64(2));
    assert_eq!(evaluate(&lex("2 - 3"), &ctx).unwrap(), Num::from_u64(1).negated());
}

#[test]
fn declaration_render_round_trip() {
    let line = "function foo a b = 2 * a + b";
    let tokens = lex(line);
    let f = Function::new(&tokens).unwrap();
    let rendered = f.render();
    assert_eq!(rendered, line.to_owned());
    assert_eq!(tokenize(rendered).unwrap(), tokens);
}

#[test]
fn render_round_trip_with_negation_and_fraction() {
    let line = "function g a = -2.5 + a";
    let tokens = lex(line);
    let f = Function::new(&tokens).unwrap();
    let rendered = f.render();
    assert_eq!(tokenize(rendered).unwrap(), tokens);
}

#[test]
fn duplicate_parameters_always_fail() {
    let r = Function::new(&lex("function f a a = a + 1"));
    assert!(matches!(r, Err(DeclarationError::DuplicateParameter)));
}

#[test]
fn empty_body_always_fails() {
    let r = Function::new(&lex("function f a ="));
    assert!(matches!(r, Err(DeclarationError::EmptyBody)));
    let r2 = Function::new(&lex("function f a"));
    assert!(matches!(r2, Err(DeclarationError::EmptyBody)));
}

#[test]
fn builtin_arity_and_values() {
    let ctx = Context::new();
    let min = Ident::new("min".to_owned()).unwrap();
    let max = Ident::new("max".to_owned()).unwrap();
    let one_arg = vec![Token::Value(Num::from_u64(10))];
    let two_args = vec![
        Token::Value(Num::from_u64(10)),
        Token::Value(Num::from_u64(15)),
    ];
    assert!(matches!(
        ctx.call_function(min.clone(), &one_arg),
        Err(EvalError::WrongArgumentCount { expected: 2, got: 1 })
    ));
    assert_eq!(
        ctx.call_function(min, &two_args).unwrap(),
        Num::from_u64(10)
    );
    assert_eq!(
        ctx.call_function(max, &two_args).unwrap(),
        Num::from_u64(15)
    );
}

#[test]
fn unary_negation_composes() {
    let ctx = Context::new();
    assert_eq!(evaluate(&lex("-2 + 3"), &ctx).unwrap(), Num::from_u64(1));
    assert_eq!(
        evaluate(&lex("2 * -3"), &ctx).unwrap(),
        Num::from_u64(6).negated()
    );
    assert_eq!(
        lex("2 * -3"),
        vec![
            Token::Value(Num::from_u64(2)),
            Token::Operator(Operator::Mul),
            Token::Operator(Operator::USub),
            Token::Value(Num::from_u64(3)),
        ]
    );
}

#[test]
fn mismatched_parentheses_always_fail() {
    let ctx = Context::new();
    assert!(matches!(
        evaluate(&lex("(2 + 3"), &ctx),
        Err(EvalError::Parse(ParseError::MismatchedParentheses))
    ));
    assert!(matches!(
        evaluate(&lex("2 + 3)"), &ctx),
        Err(EvalError::Parse(ParseError::MismatchedParentheses))
    ));
}

#[test]
fn function_reads_ambient_variable_at_call_time() {
    let mut ctx = Context::new();
    let (name, val) = ctx.new_var(&lex("var a = 10")).unwrap();
    assert_eq!(name.internal_cloned(), "a".to_owned());
    assert_eq!(val, Num::from_u64(10));
    ctx.new_func(&lex("function f x = x + a")).unwrap();
    assert_eq!(evaluate(&lex("f 5"), &ctx).unwrap(), Num::from_u64(15));
    // redeclaration silently overwrites and the function sees the new value
    ctx.new_var(&lex("var a = 20")).unwrap();
    assert_eq!(evaluate(&lex("f 5"), &ctx).unwrap(), Num::from_u64(25));
}

#[test]
fn function_calls_other_functions() {
    let mut ctx = Context::new();
    ctx.new_func(&lex("function double x = 2 * x")).unwrap();
    ctx.new_func(&lex("function quad x = double ( double x )"))
        .unwrap();
    assert_eq!(evaluate(&lex("quad 3"), &ctx).unwrap(), Num::from_u64(12));
}

#[test]
fn self_reference_hits_recursion_limit() {
    let mut ctx = Context::new();
    ctx.new_func(&lex("function r x = r x")).unwrap();
    assert!(matches!(
        evaluate(&lex("r 1"), &ctx),
        Err(EvalError::RecursionLimit)
    ));
}

#[test]
fn user_definition_shadows_builtin() {
    let mut ctx = Context::new();
    ctx.new_func(&lex("function min a = a + 1")).unwrap();
    assert_eq!(
        ctx.call_function(
            Ident::new("min".to_owned()).unwrap(),
            &vec![Token::Value(Num::from_u64(5))]
        )
        .unwrap(),
        Num::from_u64(6)
    );
}

#[test]
fn lexer_errors() {
    assert!(matches!(
        tokenize("1.2.3".to_owned()),
        Err(LexError::UnexpectedDot)
    ));
    assert!(matches!(
        tokenize(". + 2".to_owned()),
        Err(LexError::MalformedNumber)
    ));
    assert!(matches!(
        tokenize("999999999999999999999999999999999999999999".to_owned()),
        Err(LexError::NumberTooLarge)
    ));
}

#[test]
fn parser_errors() {
    let ctx = Context::new();
    assert!(matches!(
        evaluate(&lex("q + 1"), &ctx),
        Err(EvalError::Parse(ParseError::UnknownIdentifier(_)))
    ));
    assert!(matches!(
        evaluate(&lex("2 = 3"), &ctx),
        Err(EvalError::Parse(ParseError::AssignmentInExpression))
    ));
}

#[test]
fn evaluator_errors() {
    let ctx = Context::new();
    assert!(matches!(
        evaluate(&lex("1 / 0"), &ctx),
        Err(EvalError::DivisionByZero)
    ));
    assert!(matches!(
        evaluate(&lex("2 ^ 0.5"), &ctx),
        Err(EvalError::NonIntegerExponent)
    ));
    assert!(matches!(
        evaluate(&lex("2 3"), &ctx),
        Err(EvalError::StackNotReduced)
    ));
    assert!(matches!(
        evaluate(&lex("*"), &ctx),
        Err(EvalError::StackUnderflow)
    ));
    assert!(matches!(
        evaluate(
            &lex("1000000000000000000000000000 * 1000000000000000000000000000"),
            &ctx
        ),
        Err(EvalError::Overflow)
    ));
    assert!(matches!(
        ctx.call_function(Ident::new("nope".to_owned()).unwrap(), &vec![]),
        Err(EvalError::UnknownFunction(_))
    ));
}

#[test]
fn variable_declaration_errors() {
    let mut ctx = Context::new();
    assert!(matches!(
        ctx.new_var(&lex("var = 3")),
        Err(DeclarationError::MissingIdentifier)
    ));
    assert!(matches!(
        ctx.new_var(&lex("var x 3")),
        Err(DeclarationError::MissingAssignment)
    ));
    assert!(matches!(
        ctx.new_var(&lex("var x = q + 1")),
        Err(DeclarationError::Evaluation(EvalError::Parse(
            ParseError::UnknownIdentifier(_)
        )))
    ));
}

#[test]
fn function_declaration_bad_parameter() {
    let r = Function::new(&lex("function foo 10 + b = 0.0 / 2"));
    assert!(matches!(
        r,
        Err(DeclarationError::UnexpectedParameter(Token::Value(_)))
    ));
}

#[test]
fn identifier_shape() {
    assert!(Ident::new("9x".to_owned()).is_none());
    assert!(Ident::new("".to_owned()).is_none());
    assert!(Ident::new("+".to_owned()).is_none());
    assert!(Ident::new(" 5".to_owned()).is_none());
    assert!(Ident::new("a b".to_owned()).is_none());
    assert!(Ident::new("x9".to_owned()).is_some());
    assert!(Ident::new("_x".to_owned()).is_some());
    assert!(Ident::new("foo".to_owned()).is_some());
}

#[test]
fn value_rendering() {
    assert_eq!(Num::from_u64(2).render(), "2".to_owned());
    assert_eq!(
        Num::from_billionths(5_500_000_000).render(),
        "5.5".to_owned()
    );
    assert_eq!(Num::from_billionths(500_000_000).render(), "0.5".to_owned());
    assert_eq!(Num::from_u64(2).negated().render(), "-2".to_owned());
    assert_eq!(Token::Operator(Operator::USub).render(), "-".to_owned());
}

#[test]
fn fractional_arithmetic() {
    let ctx = Context::new();
    assert_eq!(
        evaluate(&lex("0.5 + 2"), &ctx).unwrap(),
        Num::from_billionths(2_500_000_000)
    );
    assert_eq!(
        evaluate(&lex("11 / 2"), &ctx).unwrap(),
        Num::from_billionths(5_500_000_000)
    );
    assert_eq!(
        evaluate(&lex("2 ^ -2"), &ctx).unwrap(),
        Num::from_billionths(250_000_000)
    );
}

#[test]
fn operator_without_operation_is_rejected() {
    let ctx = Context::new();
    let rpn = vec![
        Token::Value(Num::from_u64(1)),
        Token::Value(Num::from_u64(2)),
        Token::Operator(Operator::LParen),
    ];
    assert!(matches!(
        calculator::rpn::rpn_eval(&rpn, &ctx),
        Err(EvalError::InvalidOperator(Operator::LParen))
    ));
}

#[test]
fn builtin_argument_must_be_a_value() {
    let ctx = Context::new();
    let args = vec![Token::Identifier(Ident::new("x".to_owned()).unwrap())];
    assert!(matches!(
        ctx.call_function(Ident::new("sin".to_owned()).unwrap(), &args),
        Err(EvalError::ExpectedValue)
    ));
}

#[test]
fn unresolved_identifier_in_body_fails_at_call_time() {
    let mut ctx = Context::new();
    ctx.new_func(&lex("function f x = x + zz")).unwrap();
    assert!(matches!(
        evaluate(&lex("f 1"), &ctx),
        Err(EvalError::UnknownIdentifier(_))
    ));
}

#[test]
fn user_function_with_too_few_arguments() {
    let mut ctx = Context::new();
    // the count is checked up front, even when the body never reads the
    // missing parameter
    ctx.new_func(&lex("function konst a b = 1")).unwrap();
    assert!(matches!(
        ctx.call_function(
            Ident::new("konst".to_owned()).unwrap(),
            &vec![Token::Value(Num::from_u64(1))]
        ),
        Err(EvalError::WrongArgumentCount { expected: 2, got: 1 })
    ));
    assert!(matches!(
        ctx.call_function(
            Ident::new("konst".to_owned()).unwrap(),
            &vec![
                Token::Value(Num::from_u64(1)),
                Token::Value(Num::from_u64(2)),
                Token::Value(Num::from_u64(3))
            ]
        ),
        Err(EvalError::WrongArgumentCount { expected: 2, got: 3 })
    ));
    ctx.new_func(&lex("function add a b = a + b")).unwrap();
    assert!(matches!(
        ctx.call_function(
            Ident::new("add".to_owned()).unwrap(),
            &vec![Token::Value(Num::from_u64(1))]
        ),
        Err(EvalError::WrongArgumentCount { expected: 2, got: 1 })
    ));
    assert_eq!(
        ctx.call_function(
            Ident::new("add".to_owned()).unwrap(),
            &vec![
                Token::Value(Num::from_u64(1)),
                Token::Value(Num::from_u64(2))
            ]
        )
        .unwrap(),
        Num::from_u64(3)
    );
}

#[test]
fn postfix_order_is_exact() {
    let ctx = Context::new();
    let rpn = calculator::rpn::rpn_gen(&lex("10 + 2 * 3"), &ctx).unwrap();
    assert_eq!(
        rpn,
        vec![
            Token::Value(Num::from_u64(10)),
            Token::Value(Num::from_u64(2)),
            Token::Value(Num::from_u64(3)),
            Token::Operator(Operator::Mul),
            Token::Operator(Operator::Add),
        ]
    );
}

#[test]
fn parameterless_declaration_round_trip() {
    let line = "function k = 4 + 1";
    let tokens = lex(line);
    let f = Function::new(&tokens).unwrap();
    assert_eq!(f.args.len(), 0);
    let rendered = f.render();
    assert_eq!(rendered, line.to_owned());
    assert_eq!(tokenize(rendered).unwrap(), tokens);
}

#[test]
fn trigonometric_approximations() {
    let ctx = Context::new();
    let sin = ctx
        .call_function(
            Ident::new("sin".to_owned()).unwrap(),
            &vec![Token::Value(Num::from_u64(1))],
        )
        .unwrap();
    assert_eq!(sin, Num::from_billionths(841_468_255));
    let cos = ctx
        .call_function(
            Ident::new("cos".to_owned()).unwrap(),
            &vec![Token::Value(Num::from_u64(1))],
        )
        .unwrap();
    assert_eq!(cos, Num::from_billionths(540_277_778));
}
