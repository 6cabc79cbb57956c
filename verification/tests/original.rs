use calculator::function::Function;
use calculator::interpreter::{evaluate, Context};
use calculator::rpn::rpn_eval;
use calculator::token::{tokenize, FunctionRef, Ident, Keyword, Operator, Token};
use calculator::num::Num;

#[test]
fn test_function_new() {
    assert!(Function::new(&tokenize("function = 10 + 2".to_owned()).unwrap()).is_err());
    assert!(Function::new(&tokenize("function foo a b = ".to_owned()).unwrap()).is_err());
    assert!(Function::new(&tokenize("function foo 10 + b = 0.0 / 2".to_owned()).unwrap()).is_err());

    let expected = Function {
        ident: Ident::new("foo".to_owned()).unwrap(),
        args: vec![
            Ident::new("a".to_owned()).unwrap(),
            Ident::new("b".to_owned()).unwrap(),
        ],
        code: vec![
            Token::new("2".to_owned()).unwrap(),
            Token::new("*".to_owned()).unwrap(),
            Token::new("a".to_owned()).unwrap(),
            Token::new("+".to_owned()).unwrap(),
            Token::new("b".to_owned()).unwrap(),
        ],
    };

    assert_eq!(
        Function::new(&tokenize("function foo a b = 2 * a + b".to_owned()).unwrap()).unwrap(),
        expected
    );
}

#[test]
fn test_builtin_call() {
    let ctx = Context::new();

    assert!(ctx
        .call_function(
            Ident::new("sin".to_owned()).unwrap(),
            &vec![Token::Value(Num::from_u64(1))]
        )
        .is_ok());
    assert!(ctx
        .call_function(Ident::new("sin".to_owned()).unwrap(), &vec![])
        .is_err());

    assert!(ctx
        .call_function(
            Ident::new("cos".to_owned()).unwrap(),
            &vec![Token::Value(Num::from_u64(1))]
        )
        .is_ok());
    assert!(ctx
        .call_function(Ident::new("cos".to_owned()).unwrap(), &vec![])
        .is_err());

    assert!(ctx
        .call_function(
            Ident::new("tan".to_owned()).unwrap(),
            &vec![Token::Value(Num::from_u64(1))]
        )
        .is_ok());
    assert!(ctx
        .call_function(Ident::new("tan".to_owned()).unwrap(), &vec![])
        .is_err());

    assert!(ctx
        .call_function(
            Ident::new("asin".to_owned()).unwrap(),
            &vec![Token::Value(Num::from_u64(1))]
        )
        .is_ok());
    assert!(ctx
        .call_function(Ident::new("asin".to_owned()).unwrap(), &vec![])
        .is_err());

    assert!(ctx
        .call_function(
            Ident::new("acos".to_owned()).unwrap(),
            &vec![Token::Value(Num::from_u64(1))]
        )
        .is_ok());
    assert!(ctx
        .call_function(Ident::new("acos".to_owned()).unwrap(), &vec![])
        .is_err());

    assert!(ctx
        .call_function(
            Ident::new("atan".to_owned()).unwrap(),
            &vec![Token::Value(Num::from_u64(1))]
        )
        .is_ok());
    assert!(ctx
        .call_function(Ident::new("atan".to_owned()).unwrap(), &vec![])
        .is_err());

    assert!(ctx
        .call_function(
            Ident::new("min".to_owned()).unwrap(),
            &vec![
                Token::Value(Num::from_u64(10)),
                Token::Value(Num::from_u64(15))
            ]
        )
        .is_ok());
    assert!(ctx
        .call_function(
            Ident::new("min".to_owned()).unwrap(),
            &vec![Token::Value(Num::from_u64(10))]
        )
        .is_err());

    assert!(ctx
        .call_function(
            Ident::new("max".to_owned()).unwrap(),
            &vec![
                Token::Value(Num::from_u64(10)),
                Token::Value(Num::from_u64(15))
            ]
        )
        .is_ok());
    assert!(ctx
        .call_function(
            Ident::new("max".to_owned()).unwrap(),
            &vec![Token::Value(Num::from_u64(10))]
        )
        .is_err());

    assert_eq!(
        ctx.call_function(
            Ident::new("min".to_owned()).unwrap(),
            &vec![
                Token::Value(Num::from_u64(10)),
                Token::Value(Num::from_u64(15))
            ]
        )
        .unwrap(),
        Num::from_u64(10)
    );
    assert_eq!(
        ctx.call_function(
            Ident::new("max".to_owned()).unwrap(),
            &vec![
                Token::Value(Num::from_u64(10)),
                Token::Value(Num::from_u64(15))
            ]
        )
        .unwrap(),
        Num::from_u64(15)
    );
}

#[test]
fn test_greater_eval() {
    let mut ctx = Context::new();

    ctx.variables
        .insert(Ident::new("a".to_owned()).unwrap(), Num::from_u64(10));

    let with_vars = evaluate(&tokenize("a + 2".to_owned()).unwrap(), &ctx);
    println!("With vars: {:?}", with_vars);

    let add = Function {
        ident: Ident::new("add".to_owned()).unwrap(),
        args: vec![
            Ident::new("a".to_owned()).unwrap(),
            Ident::new("b".to_owned()).unwrap(),
        ],
        code: vec![
            Token::new("a".to_owned()).unwrap(),
            Token::new("+".to_owned()).unwrap(),
            Token::new("b".to_owned()).unwrap(),
        ],
    };
    ctx.functions
        .insert(Ident::new("add".to_owned()).unwrap(), add);
    let with_fn_call = evaluate(&tokenize("add 1 2".to_owned()).unwrap(), &ctx);
    println!("With fn call: {:?}", with_fn_call);
}

#[test]
fn test_rpn_eval() {
    // 10 + 2 * 3 = 16 once mul is a function of two arguments
    let tokens = vec![
        Token::new("10".to_owned()).unwrap(),
        Token::new("2".to_owned()).unwrap(),
        Token::new("3".to_owned()).unwrap(),
        Token::new("*".to_owned()).unwrap(),
        Token::new("+".to_owned()).unwrap(),
    ];
    let mut ctx = Context::new();
    println!("{:?}", rpn_eval(&tokens, &ctx));

    let mul = Function {
        ident: Ident::new("mul".to_owned()).unwrap(),
        args: vec![
            Ident::new("a".to_owned()).unwrap(),
            Ident::new("b".to_owned()).unwrap(),
        ],
        code: tokenize("a * b".to_owned()).unwrap(),
    };
    ctx.functions
        .insert(Ident::new("mul".to_owned()).unwrap(), mul);
    let tokens = vec![
        Token::new("10".to_owned()).unwrap(),
        Token::new("2".to_owned()).unwrap(),
        Token::new("3".to_owned()).unwrap(),
        Token::Function(FunctionRef {
            ident: Ident::new("mul".to_owned()).unwrap(),
            argc: 2,
        }),
        Token::new("+".to_owned()).unwrap(),
    ];
    println!("{:?}", rpn_eval(&tokens, &ctx));
}

#[test]
fn test_broad_token_new() {
    assert_eq!(
        Token::new("function".to_owned()).unwrap(),
        Token::Keyword(Keyword::Function)
    );
    assert_eq!(
        Token::new("foo".to_owned()).unwrap(),
        Token::Identifier(Ident::new("foo".to_owned()).unwrap())
    );
    assert_eq!(
        Token::new("a".to_owned()).unwrap(),
        Token::Identifier(Ident::new("a".to_owned()).unwrap())
    );
    assert_eq!(
        Token::new("b".to_owned()).unwrap(),
        Token::Identifier(Ident::new("b".to_owned()).unwrap())
    );
    assert_eq!(
        Token::new("=".to_owned()).unwrap(),
        Token::Operator(Operator::Assign)
    );
    assert_eq!(
        Token::new("2".to_owned()).unwrap(),
        Token::Value(Num::from_u64(2))
    );
    assert_eq!(
        Token::new("*".to_owned()).unwrap(),
        Token::Operator(Operator::Mul)
    );
    assert_eq!(
        Token::new("a".to_owned()).unwrap(),
        Token::Identifier(Ident::new("a".to_owned()).unwrap())
    );
    assert_eq!(
        Token::new("+".to_owned()).unwrap(),
        Token::Operator(Operator::Add)
    );
    assert_eq!(
        Token::new("b".to_owned()).unwrap(),
        Token::Identifier(Ident::new("b".to_owned()).unwrap())
    );
}

#[test]
fn test_tokenize() {
    let expected = vec![
        Token::new("function".to_owned()).unwrap(),
        Token::new("foo".to_owned()).unwrap(),
        Token::new("a".to_owned()).unwrap(),
        Token::new("b".to_owned()).unwrap(),
        Token::new("=".to_owned()).unwrap(),
        Token::new("2".to_owned()).unwrap(),
        Token::new("*".to_owned()).unwrap(),
        Token::new("a".to_owned()).unwrap(),
        Token::new("+".to_owned()).unwrap(),
        Token::new("b".to_owned()).unwrap(),
    ];
    assert_eq!(
        tokenize("function foo a b = 2 * a + b".to_owned()).unwrap(),
        expected
    );

    let expected = vec![
        Token::new("var".to_owned()).unwrap(),
        Token::new("foo".to_owned()).unwrap(),
        Token::new("=".to_owned()).unwrap(),
        Token::new("14".to_owned()).unwrap(),
        Token::new("^".to_owned()).unwrap(),
        Token::new("2".to_owned()).unwrap(),
    ];
    assert_eq!(tokenize("var foo = 14 ^ 2".to_owned()).unwrap(), expected);

    let expected = vec![
        Token::new("10".to_owned()).unwrap(),
        Token::new("+".to_owned()).unwrap(),
        Token::new("11".to_owned()).unwrap(),
        Token::new("/".to_owned()).unwrap(),
        Token::new("2".to_owned()).unwrap(),
        Token::new("*".to_owned()).unwrap(),
        Token::new("(".to_owned()).unwrap(),
        Token::new("2".to_owned()).unwrap(),
        Token::new("^".to_owned()).unwrap(),
        Token::new("4".to_owned()).unwrap(),
        Token::new(")".to_owned()).unwrap(),
        Token::new("/".to_owned()).unwrap(),
        Token::new("4".to_owned()).unwrap(),
    ];
    assert_eq!(
        tokenize("10 + 11/2 * (2 ^ 4) /    4".to_owned()).unwrap(),
        expected
    );
}
