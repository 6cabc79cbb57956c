//! Infix to postfix conversion (the shunting-yard algorithm) and postfix
//! evaluation.
//!
//! `rpn_gen` reorders an infix token stream into reverse Polish notation,
//! resolving each bare identifier against the context: a function name
//! becomes a function-reference token on the operator stack, a variable
//! becomes its current value in the output, and anything else is an error.
//! A resolved function reference acts as a maximal-precedence prefix unit:
//! any operator arriving above one pops it to the output first.

use vstd::prelude::*;
use crate::errors::{EvalError, ParseError};
use crate::function::Function;
use crate::interpreter::{builtin_arity, spec_builtin_arity, spec_call_function, Context, MAX_DEPTH};
use crate::num::Num;
use crate::token::{
    spec_associativity, spec_operate, spec_precedence, tokens_wf, FunctionRef, Ident, Operator,
    OperatorAssociativity, Token,
};

verus! {

/// The shunting-yard machine between input tokens: the operator stack and
/// the output sequence built so far.
pub ghost struct RpnState {
    pub stack: Seq<Token>,
    pub out: Seq<Token>,
}

/// What one bare identifier resolves to: a function reference carrying the
/// arity (user definitions first, then the builtin list), a variable's
/// current value, or an unknown-identifier error.
pub open spec fn spec_resolve(
    funs: Map<Seq<char>, Function>,
    vars: Map<Seq<char>, Num>,
    id: Ident,
) -> Result<Token, ParseError> {
    if funs.contains_key(id@) {
        Ok(Token::Function(FunctionRef { ident: id, argc: funs[id@].args@.len() as usize }))
    } else if spec_builtin_arity(id@) is Some {
        Ok(Token::Function(FunctionRef { ident: id, argc: spec_builtin_arity(id@)->Some_0 }))
    } else if vars.contains_key(id@) {
        Ok(Token::Value(vars[id@]))
    } else {
        Err(ParseError::UnknownIdentifier(id))
    }
}

/// Whether the stack top must move to the output before `op` is pushed: an
/// opening parenthesis blocks, a function reference always dominates, and
/// another operator dominates by the standard precedence rule.
pub open spec fn spec_should_pop(top: Token, op: Operator) -> bool {
    match top {
        Token::Operator(Operator::LParen) => false,
        Token::Operator(op2) => if spec_associativity(op) == OperatorAssociativity::Left {
            spec_precedence(op2) >= spec_precedence(op)
        } else {
            spec_precedence(op2) > spec_precedence(op)
        },
        Token::Function(_) => true,
        _ => false,
    }
}

/// Pops dominating entries to the output until the rule stops.
pub open spec fn spec_pop_ops(stack: Seq<Token>, out: Seq<Token>, op: Operator) -> (
    Seq<Token>,
    Seq<Token>,
)
    decreases stack.len(),
{
    if stack.len() == 0 {
        (stack, out)
    } else if spec_should_pop(stack.last(), op) {
        spec_pop_ops(stack.drop_last(), out.push(stack.last()), op)
    } else {
        (stack, out)
    }
}

/// Pops to the output until the matching opening parenthesis, which is
/// discarded; `None` when there is none.
pub open spec fn spec_pop_until_lparen(stack: Seq<Token>, out: Seq<Token>) -> Option<
    (Seq<Token>, Seq<Token>),
>
    decreases stack.len(),
{
    if stack.len() == 0 {
        None
    } else if stack.last() matches Token::Operator(Operator::LParen) {
        Some((stack.drop_last(), out))
    } else {
        spec_pop_until_lparen(stack.drop_last(), out.push(stack.last()))
    }
}

/// One input token consumed by the shunting-yard machine.
pub open spec fn spec_rpn_step(
    funs: Map<Seq<char>, Function>,
    vars: Map<Seq<char>, Num>,
    st: RpnState,
    tok: Token,
) -> Result<RpnState, ParseError> {
    match tok {
        Token::Value(_) => Ok(RpnState { stack: st.stack, out: st.out.push(tok) }),
        Token::Identifier(id) => match spec_resolve(funs, vars, id) {
            Ok(t) => if t matches Token::Function(_) {
                Ok(RpnState { stack: st.stack.push(t), out: st.out })
            } else {
                Ok(RpnState { stack: st.stack, out: st.out.push(t) })
            },
            Err(e) => Err(e),
        },
        Token::Operator(Operator::LParen) => Ok(
            RpnState { stack: st.stack.push(tok), out: st.out },
        ),
        Token::Operator(Operator::RParen) => match spec_pop_until_lparen(st.stack, st.out) {
            Some(so) => Ok(RpnState { stack: so.0, out: so.1 }),
            None => Err(ParseError::MismatchedParentheses),
        },
        Token::Operator(Operator::Assign) => Err(ParseError::AssignmentInExpression),
        Token::Operator(op) => {
            let so = spec_pop_ops(st.stack, st.out, op);
            Ok(RpnState { stack: so.0.push(tok), out: so.1 })
        },
        _ => Ok(st),
    }
}

/// The machine's state after the first `n` input tokens.
pub open spec fn spec_rpn_prefix(
    funs: Map<Seq<char>, Function>,
    vars: Map<Seq<char>, Num>,
    toks: Seq<Token>,
    n: int,
) -> Result<RpnState, ParseError>
    decreases n,
{
    if n <= 0 {
        Ok(RpnState { stack: seq![], out: seq![] })
    } else {
        match spec_rpn_prefix(funs, vars, toks, n - 1) {
            Ok(st) => spec_rpn_step(funs, vars, st, toks[n - 1]),
            Err(e) => Err(e),
        }
    }
}

/// A parse error reached at some prefix stays for every longer prefix.
pub proof fn lemma_rpn_prefix_err(
    funs: Map<Seq<char>, Function>,
    vars: Map<Seq<char>, Num>,
    toks: Seq<Token>,
    k: int,
    k2: int,
)
    requires
        spec_rpn_prefix(funs, vars, toks, k) is Err,
        k <= k2,
    ensures
        spec_rpn_prefix(funs, vars, toks, k2) == spec_rpn_prefix(funs, vars, toks, k),
    decreases k2 - k,
{
    if k2 > k {
        lemma_rpn_prefix_err(funs, vars, toks, k, k2 - 1);
    }
}

/// Draining the stack once the input ends: a leftover opening parenthesis
/// was never closed.
pub open spec fn spec_drain(stack: Seq<Token>, out: Seq<Token>) -> Result<Seq<Token>, ParseError>
    decreases stack.len(),
{
    if stack.len() == 0 {
        Ok(out)
    } else if stack.last() matches Token::Operator(Operator::LParen) {
        Err(ParseError::MismatchedParentheses)
    } else {
        spec_drain(stack.drop_last(), out.push(stack.last()))
    }
}

/// What the whole conversion produces on a token sequence.
pub open spec fn spec_rpn_gen(
    funs: Map<Seq<char>, Function>,
    vars: Map<Seq<char>, Num>,
    toks: Seq<Token>,
) -> Result<Seq<Token>, ParseError> {
    match spec_rpn_prefix(funs, vars, toks, toks.len() as int) {
        Err(e) => Err(e),
        Ok(st) => spec_drain(st.stack, st.out),
    }
}

fn is_lparen(t: &Token) -> (r: bool)
    ensures
        r == (*t matches Token::Operator(Operator::LParen)),
{
    match t {
        Token::Operator(Operator::LParen) => true,
        _ => false,
    }
}

fn should_pop(top: &Token, op: Operator) -> (r: bool)
    ensures
        r == spec_should_pop(*top, op),
{
    match top {
        Token::Operator(Operator::LParen) => false,
        Token::Operator(op2) => match op.associativity() {
            OperatorAssociativity::Left => op2.precedence() >= op.precedence(),
            OperatorAssociativity::Right => op2.precedence() > op.precedence(),
        },
        Token::Function(_) => true,
        _ => false,
    }
}

/// Converts an infix token sequence into postfix order against the context,
/// exactly as `spec_rpn_gen` describes; the output's value tokens stay well
/// formed when the input's and the context's are.
pub fn rpn_gen(tokens: &Vec<Token>, ctx: &Context) -> (r: Result<Vec<Token>, ParseError>)
    ensures
        match spec_rpn_gen(ctx.functions@, ctx.variables@, tokens@) {
            Ok(out) => r matches Ok(v) && v@ == out,
            Err(e) => r matches Err(e2) && e2 == e,
        },
        tokens_wf(tokens@) && ctx.wf() && r is Ok ==> tokens_wf(r->Ok_0@),
{
    let ghost funs = ctx.functions@;
    let ghost vars = ctx.variables@;
    let mut stack: Vec<Token> = Vec::new();
    let mut output: Vec<Token> = Vec::new();
    let mut i: usize = 0;
    while i < tokens.len()
        invariant
            i <= tokens@.len(),
            funs == ctx.functions@,
            vars == ctx.variables@,
            spec_rpn_prefix(funs, vars, tokens@, i as int) == Ok::<RpnState, ParseError>(
                RpnState { stack: stack@, out: output@ },
            ),
            tokens_wf(tokens@) && ctx.wf() ==> tokens_wf(stack@) && tokens_wf(output@),
        decreases tokens@.len() - i,
    {
        let ghost st_old = RpnState { stack: stack@, out: output@ };
        let tok = &tokens[i];
        match tok {
            Token::Value(_) => {
                output.push(tok.clone());
            },
            Token::Identifier(id) => {
                match ctx.functions.get(id) {
                    Some(f) => {
                        stack.push(Token::Function(FunctionRef { ident: id.clone(), argc: f.argc() }));
                    },
                    None => match builtin_arity(id) {
                        Some(n) => {
                            stack.push(Token::Function(FunctionRef { ident: id.clone(), argc: n }));
                        },
                        None => match ctx.variables.get(id) {
                            Some(v) => {
                                output.push(Token::Value(*v));
                            },
                            None => {
                                proof {
                                    assert(spec_rpn_prefix(funs, vars, tokens@, i + 1) is Err);
                                    lemma_rpn_prefix_err(
                                        funs,
                                        vars,
                                        tokens@,
                                        i + 1,
                                        tokens@.len() as int,
                                    );
                                }
                                return Err(ParseError::UnknownIdentifier(id.clone()));
                            },
                        },
                    },
                }
            },
            Token::Operator(Operator::LParen) => {
                stack.push(tok.clone());
            },
            Token::Operator(Operator::RParen) => {
                let ghost stack0 = stack@;
                let ghost out0 = output@;
                while stack.len() > 0 && !is_lparen(&stack[stack.len() - 1])
                    invariant
                        spec_pop_until_lparen(stack0, out0) == spec_pop_until_lparen(
                            stack@,
                            output@,
                        ),
                        tokens_wf(stack0) && tokens_wf(out0) ==> tokens_wf(stack@) && tokens_wf(
                            output@,
                        ),
                    decreases stack@.len(),
                {
                    proof {
                        assert(stack@.drop_last() =~= stack@.subrange(0, stack@.len() - 1));
                    }
                    match stack.pop() {
                        Some(t) => {
                            output.push(t);
                        },
                        None => {
                            proof {
                                assert(false);
                            }
                        },
                    }
                }
                if stack.len() == 0 {
                    proof {
                        assert(spec_rpn_prefix(funs, vars, tokens@, i + 1) is Err);
                        lemma_rpn_prefix_err(funs, vars, tokens@, i + 1, tokens@.len() as int);
                    }
                    return Err(ParseError::MismatchedParentheses);
                }
                proof {
                    assert(stack@.drop_last() =~= stack@.subrange(0, stack@.len() - 1));
                }
                let _ = stack.pop();
            },
            Token::Operator(Operator::Assign) => {
                proof {
                    assert(spec_rpn_prefix(funs, vars, tokens@, i + 1) is Err);
                    lemma_rpn_prefix_err(funs, vars, tokens@, i + 1, tokens@.len() as int);
                }
                return Err(ParseError::AssignmentInExpression);
            },
            Token::Operator(op) => {
                let ghost stack0 = stack@;
                let ghost out0 = output@;
                let op = *op;
                while stack.len() > 0 && should_pop(&stack[stack.len() - 1], op)
                    invariant
                        spec_pop_ops(stack0, out0, op) == spec_pop_ops(stack@, output@, op),
                        tokens_wf(stack0) && tokens_wf(out0) ==> tokens_wf(stack@) && tokens_wf(
                            output@,
                        ),
                    decreases stack@.len(),
                {
                    proof {
                        assert(stack@.drop_last() =~= stack@.subrange(0, stack@.len() - 1));
                    }
                    match stack.pop() {
                        Some(t) => {
                            output.push(t);
                        },
                        None => {
                            proof {
                                assert(false);
                            }
                        },
                    }
                }
                stack.push(tok.clone());
            },
            _ => {},
        }
        proof {
            assert(spec_rpn_prefix(funs, vars, tokens@, i + 1) == spec_rpn_step(
                funs,
                vars,
                st_old,
                tokens@[i as int],
            ));
            assert(spec_rpn_step(funs, vars, st_old, tokens@[i as int]) == Ok::<
                RpnState,
                ParseError,
            >(RpnState { stack: stack@, out: output@ }));
        }
        i = i + 1;
    }
    let ghost stack0 = stack@;
    let ghost out0 = output@;
    while stack.len() > 0 && !is_lparen(&stack[stack.len() - 1])
        invariant
            spec_drain(stack0, out0) == spec_drain(stack@, output@),
            tokens_wf(stack0) && tokens_wf(out0) ==> tokens_wf(stack@) && tokens_wf(output@),
        decreases stack@.len(),
    {
        proof {
            assert(stack@.drop_last() =~= stack@.subrange(0, stack@.len() - 1));
        }
        match stack.pop() {
            Some(t) => {
                output.push(t);
            },
            None => {
                proof {
                    assert(false);
                }
            },
        }
    }
    if stack.len() > 0 {
        return Err(ParseError::MismatchedParentheses);
    }
    Ok(output)
}

// ---------------------------------------------------------------------------
// Parenthesis laws
// ---------------------------------------------------------------------------
/// The running parenthesis count of one token.
pub open spec fn paren_delta(t: Token) -> int {
    match t {
        Token::Operator(Operator::LParen) => 1,
        Token::Operator(Operator::RParen) => -1,
        _ => 0,
    }
}

/// The parenthesis nesting depth after the first `n` tokens.
pub open spec fn paren_depth(toks: Seq<Token>, n: int) -> int
    decreases n,
{
    if n <= 0 {
        0
    } else {
        paren_depth(toks, n - 1) + paren_delta(toks[n - 1])
    }
}

/// Balanced parentheses: the depth never goes negative and ends at zero.
pub open spec fn balanced_parens(toks: Seq<Token>) -> bool {
    &&& forall|m: int| 0 <= m <= toks.len() ==> paren_depth(toks, m) >= 0
    &&& paren_depth(toks, toks.len() as int) == 0
}

/// Inputs on which the machine can fail only over parentheses: every
/// identifier resolves and no assignment operator appears.
pub open spec fn spec_resolvable(
    funs: Map<Seq<char>, Function>,
    vars: Map<Seq<char>, Num>,
    toks: Seq<Token>,
) -> bool {
    forall|i: int|
        0 <= i < toks.len() ==> ((#[trigger] toks[i] matches Token::Identifier(id) ==> spec_resolve(
            funs,
            vars,
            id,
        ) is Ok) && !(toks[i] matches Token::Operator(Operator::Assign)))
}

/// The opening parentheses still on the operator stack.
pub open spec fn count_lparens(stack: Seq<Token>) -> int
    decreases stack.len(),
{
    if stack.len() == 0 {
        0
    } else {
        count_lparens(stack.drop_last()) + if stack.last() matches Token::Operator(
            Operator::LParen,
        ) {
            1int
        } else {
            0int
        }
    }
}

proof fn lemma_count_lparens_nonneg(stack: Seq<Token>)
    ensures
        count_lparens(stack) >= 0,
    decreases stack.len(),
{
    if stack.len() > 0 {
        lemma_count_lparens_nonneg(stack.drop_last());
    }
}

proof fn lemma_count_lparens_push(stack: Seq<Token>, t: Token)
    ensures
        count_lparens(stack.push(t)) == count_lparens(stack) + if t matches Token::Operator(
            Operator::LParen,
        ) {
            1int
        } else {
            0int
        },
{
    assert(stack.push(t).drop_last() =~= stack);
    assert(stack.push(t).last() == t);
}

/// Popping by precedence never takes an opening parenthesis off the stack.
proof fn lemma_pop_ops_count(stack: Seq<Token>, out: Seq<Token>, op: Operator)
    ensures
        count_lparens(spec_pop_ops(stack, out, op).0) == count_lparens(stack),
    decreases stack.len(),
{
    if stack.len() > 0 && spec_should_pop(stack.last(), op) {
        lemma_pop_ops_count(stack.drop_last(), out.push(stack.last()), op);
    }
}

/// Popping for a closing parenthesis finds an opening one exactly when the
/// stack holds one, and takes exactly that one off.
proof fn lemma_pop_until_count(stack: Seq<Token>, out: Seq<Token>)
    ensures
        count_lparens(stack) == 0 ==> spec_pop_until_lparen(stack, out) is None,
        count_lparens(stack) > 0 ==> (spec_pop_until_lparen(stack, out) matches Some(so)
            && count_lparens(so.0) == count_lparens(stack) - 1),
    decreases stack.len(),
{
    lemma_count_lparens_nonneg(stack);
    if stack.len() > 0 {
        if stack.last() matches Token::Operator(Operator::LParen) {
            lemma_count_lparens_nonneg(stack.drop_last());
        } else {
            lemma_pop_until_count(stack.drop_last(), out.push(stack.last()));
        }
    }
}

/// Draining fails exactly when an opening parenthesis is left on the stack.
proof fn lemma_drain_count(stack: Seq<Token>, out: Seq<Token>)
    ensures
        count_lparens(stack) > 0 ==> spec_drain(stack, out) == Err::<Seq<Token>, ParseError>(
            ParseError::MismatchedParentheses,
        ),
        count_lparens(stack) == 0 ==> spec_drain(stack, out) is Ok,
    decreases stack.len(),
{
    lemma_count_lparens_nonneg(stack);
    if stack.len() > 0 {
        if stack.last() matches Token::Operator(Operator::LParen) {
            lemma_count_lparens_nonneg(stack.drop_last());
        } else {
            lemma_drain_count(stack.drop_last(), out.push(stack.last()));
        }
    }
}

/// On resolvable input the machine's stack always holds exactly as many
/// opening parentheses as the depth so far; the only error it can reach is a
/// parenthesis mismatch, and only by the depth going negative.
proof fn lemma_rpn_prefix_parens(
    funs: Map<Seq<char>, Function>,
    vars: Map<Seq<char>, Num>,
    toks: Seq<Token>,
    n: int,
)
    requires
        spec_resolvable(funs, vars, toks),
        0 <= n <= toks.len(),
    ensures
        match spec_rpn_prefix(funs, vars, toks, n) {
            Ok(st) => count_lparens(st.stack) == paren_depth(toks, n) && forall|m: int|
                0 <= m <= n ==> paren_depth(toks, m) >= 0,
            Err(e) => e == ParseError::MismatchedParentheses && exists|m: int|
                0 <= m <= n && paren_depth(toks, m) < 0,
        },
    decreases n,
{
    if n > 0 {
        lemma_rpn_prefix_parens(funs, vars, toks, n - 1);
        match spec_rpn_prefix(funs, vars, toks, n - 1) {
            Ok(st) => {
                let tok = toks[n - 1];
                match tok {
                    Token::Operator(Operator::RParen) => {
                        lemma_pop_until_count(st.stack, st.out);
                        if count_lparens(st.stack) == 0 {
                            assert(paren_depth(toks, n) < 0);
                        }
                    },
                    Token::Operator(Operator::LParen) => {
                        lemma_count_lparens_push(st.stack, tok);
                    },
                    Token::Operator(Operator::Assign) => {
                        assert(false);
                    },
                    Token::Operator(op) => {
                        lemma_pop_ops_count(st.stack, st.out, op);
                        let so = spec_pop_ops(st.stack, st.out, op);
                        lemma_count_lparens_push(so.0, tok);
                    },
                    Token::Identifier(id) => {
                        match spec_resolve(funs, vars, id) {
                            Ok(t) => {
                                if t matches Token::Function(_) {
                                    lemma_count_lparens_push(st.stack, t);
                                }
                            },
                            Err(_) => {
                                assert(false);
                            },
                        }
                    },
                    _ => {},
                }
            },
            Err(_) => {},
        }
    }
}

/// An unbalanced token sequence whose identifiers all resolve always fails
/// with the parenthesis-mismatch error, never a silent wrong answer.
pub proof fn lemma_mismatched_parens_fail(
    funs: Map<Seq<char>, Function>,
    vars: Map<Seq<char>, Num>,
    toks: Seq<Token>,
)
    requires
        spec_resolvable(funs, vars, toks),
        !balanced_parens(toks),
    ensures
        spec_rpn_gen(funs, vars, toks) == Err::<Seq<Token>, ParseError>(
            ParseError::MismatchedParentheses,
        ),
{
    lemma_rpn_prefix_parens(funs, vars, toks, toks.len() as int);
    match spec_rpn_prefix(funs, vars, toks, toks.len() as int) {
        Ok(st) => {
            assert(paren_depth(toks, toks.len() as int) != 0);
            lemma_drain_count(st.stack, st.out);
        },
        Err(_) => {},
    }
}

/// A balanced token sequence whose identifiers all resolve is always
/// converted successfully.
pub proof fn lemma_balanced_parens_succeed(
    funs: Map<Seq<char>, Function>,
    vars: Map<Seq<char>, Num>,
    toks: Seq<Token>,
)
    requires
        spec_resolvable(funs, vars, toks),
        balanced_parens(toks),
    ensures
        spec_rpn_gen(funs, vars, toks) is Ok,
{
    lemma_rpn_prefix_parens(funs, vars, toks, toks.len() as int);
    match spec_rpn_prefix(funs, vars, toks, toks.len() as int) {
        Ok(st) => {
            lemma_drain_count(st.stack, st.out);
        },
        Err(_) => {},
    }
}

// ---------------------------------------------------------------------------
// Postfix evaluation
// ---------------------------------------------------------------------------
/// One postfix token executed against the value stack: a value pushes,
/// unary negation consumes one operand, any other operator two (the one
/// popped first being the right operand), and a function reference pops its
/// arity's worth of values in the order they were pushed and dispatches the
/// call. An identifier or keyword cannot appear in parser output; one that
/// does is skipped as the defect it is.
pub open spec fn spec_eval_step(
    funs: Map<Seq<char>, Function>,
    vars: Map<Seq<char>, Num>,
    stack: Seq<Num>,
    tok: Token,
    depth: nat,
) -> Result<Seq<Num>, EvalError>
    decreases depth, 2int, 0int,
{
    match tok {
        Token::Value(v) => Ok(stack.push(v)),
        Token::Operator(Operator::USub) => if stack.len() < 1 {
            Err(EvalError::StackUnderflow)
        } else {
            match spec_operate(Operator::USub, stack.last(), stack.last()) {
                Ok(n) => Ok(stack.drop_last().push(n)),
                Err(e) => Err(e),
            }
        },
        Token::Operator(op) => if stack.len() < 2 {
            Err(EvalError::StackUnderflow)
        } else {
            match spec_operate(op, stack.last(), stack[stack.len() - 2]) {
                Ok(n) => Ok(stack.subrange(0, stack.len() - 2).push(n)),
                Err(e) => Err(e),
            }
        },
        Token::Function(fref) => {
            if stack.len() < fref.argc as int {
                Err(EvalError::StackUnderflow)
            } else {
                let vals = stack.subrange(stack.len() - fref.argc as int, stack.len() as int);
                let args = vals.map_values(|v: Num| Token::Value(v));
                match spec_call_function(funs, vars, fref.ident, args, depth) {
                    Ok(v) => Ok(stack.subrange(0, stack.len() - fref.argc as int).push(v)),
                    Err(e) => Err(e),
                }
            }
        },
        _ => Ok(stack),
    }
}

/// The value stack after the first `n` postfix tokens.
pub open spec fn spec_rpn_eval_prefix(
    funs: Map<Seq<char>, Function>,
    vars: Map<Seq<char>, Num>,
    rpn: Seq<Token>,
    n: int,
    depth: nat,
) -> Result<Seq<Num>, EvalError>
    decreases depth, 3int, n,
{
    if n <= 0 {
        Ok(seq![])
    } else {
        match spec_rpn_eval_prefix(funs, vars, rpn, n - 1, depth) {
            Ok(stack) => if n - 1 < rpn.len() {
                spec_eval_step(funs, vars, stack, rpn[n - 1], depth)
            } else {
                Ok(stack)
            },
            Err(e) => Err(e),
        }
    }
}

/// An evaluation error reached at some prefix stays for every longer prefix.
pub proof fn lemma_rpn_eval_prefix_err(
    funs: Map<Seq<char>, Function>,
    vars: Map<Seq<char>, Num>,
    rpn: Seq<Token>,
    k: int,
    k2: int,
    depth: nat,
)
    requires
        spec_rpn_eval_prefix(funs, vars, rpn, k, depth) is Err,
        k <= k2,
    ensures
        spec_rpn_eval_prefix(funs, vars, rpn, k2, depth) == spec_rpn_eval_prefix(
            funs,
            vars,
            rpn,
            k,
            depth,
        ),
    decreases k2 - k,
{
    if k2 > k {
        lemma_rpn_eval_prefix_err(funs, vars, rpn, k, k2 - 1, depth);
    }
}

/// What executing a whole postfix sequence returns: exactly one value must
/// remain on the stack at the end.
pub open spec fn spec_rpn_eval_full(
    funs: Map<Seq<char>, Function>,
    vars: Map<Seq<char>, Num>,
    rpn: Seq<Token>,
    depth: nat,
) -> Result<Num, EvalError>
    decreases depth, 3int, rpn.len() + 1,
{
    match spec_rpn_eval_prefix(funs, vars, rpn, rpn.len() as int, depth) {
        Err(e) => Err(e),
        Ok(stack) => if stack.len() == 1 {
            Ok(stack[0])
        } else {
            Err(EvalError::StackNotReduced)
        },
    }
}

/// Executes a postfix token sequence under the default depth budget.
pub fn rpn_eval(tokens_rpn: &Vec<Token>, ctx: &Context) -> (r: Result<Num, EvalError>)
    requires
        tokens_wf(tokens_rpn@),
        ctx.wf(),
    ensures
        r == spec_rpn_eval_full(ctx.functions@, ctx.variables@, tokens_rpn@, MAX_DEPTH as nat),
        r matches Ok(n) ==> n.wf(),
{
    rpn_eval_depth(tokens_rpn, ctx, MAX_DEPTH)
}

/// Executes a postfix token sequence against a value stack, exactly as
/// `spec_rpn_eval_full` describes.
pub fn rpn_eval_depth(tokens_rpn: &Vec<Token>, ctx: &Context, depth: u64) -> (r: Result<
    Num,
    EvalError,
>)
    requires
        tokens_wf(tokens_rpn@),
        ctx.wf(),
    ensures
        r == spec_rpn_eval_full(ctx.functions@, ctx.variables@, tokens_rpn@, depth as nat),
        r matches Ok(n) ==> n.wf(),
    decreases depth, 2int,
{
    let ghost funs = ctx.functions@;
    let ghost vars = ctx.variables@;
    let mut stack: Vec<Num> = Vec::new();
    let mut i: usize = 0;
    while i < tokens_rpn.len()
        invariant
            i <= tokens_rpn@.len(),
            funs == ctx.functions@,
            vars == ctx.variables@,
            ctx.wf(),
            tokens_wf(tokens_rpn@),
            spec_rpn_eval_prefix(funs, vars, tokens_rpn@, i as int, depth as nat) == Ok::<
                Seq<Num>,
                EvalError,
            >(stack@),
            forall|j: int| 0 <= j < stack@.len() ==> (#[trigger] stack@[j]).wf(),
        decreases tokens_rpn@.len() - i,
    {
        let ghost stack_old = stack@;
        let tok = &tokens_rpn[i];
        match tok {
            Token::Value(v) => {
                proof {
                    assert(tokens_rpn@[i as int] matches Token::Value(n) && n.wf());
                }
                stack.push(*v);
            },
            Token::Operator(op) => {
                let op = *op;
                let unary: bool = match op {
                    Operator::USub => true,
                    _ => false,
                };
                if unary {
                    let a = match stack.pop() {
                        Some(a) => a,
                        None => {
                            proof {
                                lemma_rpn_eval_prefix_err(
                                    funs,
                                    vars,
                                    tokens_rpn@,
                                    i + 1,
                                    tokens_rpn@.len() as int,
                                    depth as nat,
                                );
                            }
                            return Err(EvalError::StackUnderflow);
                        },
                    };
                    proof {
                        assert(stack_old.last() == a);
                        assert(stack@ =~= stack_old.drop_last());
                    }
                    match op.operate(a, a) {
                        Ok(n) => {
                            stack.push(n);
                        },
                        Err(e) => {
                            proof {
                                lemma_rpn_eval_prefix_err(
                                    funs,
                                    vars,
                                    tokens_rpn@,
                                    i + 1,
                                    tokens_rpn@.len() as int,
                                    depth as nat,
                                );
                            }
                            return Err(e);
                        },
                    }
                } else {
                    if stack.len() < 2 {
                        proof {
                            lemma_rpn_eval_prefix_err(
                                funs,
                                vars,
                                tokens_rpn@,
                                i + 1,
                                tokens_rpn@.len() as int,
                                depth as nat,
                            );
                        }
                        return Err(EvalError::StackUnderflow);
                    }
                    let a = match stack.pop() {
                        Some(a) => a,
                        None => {
                            proof {
                                assert(false);
                            }
                            return Err(EvalError::StackUnderflow);
                        },
                    };
                    let b = match stack.pop() {
                        Some(b) => b,
                        None => {
                            proof {
                                assert(false);
                            }
                            return Err(EvalError::StackUnderflow);
                        },
                    };
                    proof {
                        assert(stack_old.last() == a);
                        assert(stack_old[stack_old.len() - 2] == b);
                        assert(stack@ =~= stack_old.subrange(0, stack_old.len() - 2));
                    }
                    match op.operate(a, b) {
                        Ok(n) => {
                            stack.push(n);
                        },
                        Err(e) => {
                            proof {
                                lemma_rpn_eval_prefix_err(
                                    funs,
                                    vars,
                                    tokens_rpn@,
                                    i + 1,
                                    tokens_rpn@.len() as int,
                                    depth as nat,
                                );
                            }
                            return Err(e);
                        },
                    }
                }
            },
            Token::Function(fref) => {
                let argc = fref.argc;
                if stack.len() < argc {
                    proof {
                        lemma_rpn_eval_prefix_err(
                            funs,
                            vars,
                            tokens_rpn@,
                            i + 1,
                            tokens_rpn@.len() as int,
                            depth as nat,
                        );
                    }
                    return Err(EvalError::StackUnderflow);
                }
                let vals = stack.split_off(stack.len() - argc);
                let mut args: Vec<Token> = Vec::new();
                let mut j: usize = 0;
                proof {
                    assert(args@ =~= vals@.subrange(0, 0).map_values(|v: Num| Token::Value(v)));
                }
                while j < vals.len()
                    invariant
                        j <= vals@.len(),
                        args@ == vals@.subrange(0, j as int).map_values(
                            |v: Num| Token::Value(v),
                        ),
                        forall|k: int| 0 <= k < vals@.len() ==> (#[trigger] vals@[k]).wf(),
                    decreases vals@.len() - j,
                {
                    args.push(Token::Value(vals[j]));
                    proof {
                        assert(vals@.subrange(0, j + 1).map_values(|v: Num| Token::Value(v))
                            =~= vals@.subrange(0, j as int).map_values(
                            |v: Num| Token::Value(v),
                        ).push(Token::Value(vals@[j as int])));
                    }
                    j = j + 1;
                }
                proof {
                    assert(vals@.subrange(0, vals@.len() as int) =~= vals@);
                    assert(args@ == vals@.map_values(|v: Num| Token::Value(v)));
                    assert(tokens_wf(args@));
                }
                match ctx.call_function_depth(fref.ident.clone(), &args, depth) {
                    Ok(v) => {
                        stack.push(v);
                    },
                    Err(e) => {
                        proof {
                            lemma_rpn_eval_prefix_err(
                                funs,
                                vars,
                                tokens_rpn@,
                                i + 1,
                                tokens_rpn@.len() as int,
                                depth as nat,
                            );
                        }
                        return Err(e);
                    },
                }
            },
            _ => {},
        }
        proof {
            assert(spec_rpn_eval_prefix(funs, vars, tokens_rpn@, i + 1, depth as nat)
                == spec_eval_step(funs, vars, stack_old, tokens_rpn@[i as int], depth as nat));
            assert(spec_eval_step(funs, vars, stack_old, tokens_rpn@[i as int], depth as nat)
                == Ok::<Seq<Num>, EvalError>(stack@));
        }
        i = i + 1;
    }
    if stack.len() == 1 {
        match stack.pop() {
            Some(v) => Ok(v),
            None => {
                proof {
                    assert(false);
                }
                Err(EvalError::StackNotReduced)
            },
        }
    } else {
        Err(EvalError::StackNotReduced)
    }
}

} // verus!
