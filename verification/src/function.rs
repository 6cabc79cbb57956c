//! User-defined functions: a named, fixed-arity template of tokens.
//!
//! A declaration line `function <name> <params...> = <body...>` becomes a
//! `Function`; calling one substitutes the call-site argument values for its
//! parameter identifiers and evaluates the resulting token sequence against
//! the ambient context.

use vstd::prelude::*;
use crate::errors::{DeclarationError, EvalError};
use crate::interpreter::{evaluate_depth, spec_evaluate, Context, MAX_DEPTH};
use crate::num::Num;
use crate::token::{tokens_wf, Ident, Keyword, Operator, Token};

verus! {

/// A named, fixed-arity template: parameter names (unique by construction)
/// and the un-evaluated body tokens. Immutable after construction.
#[derive(PartialEq, Debug)]
pub struct Function {
    pub ident: Ident,
    pub args: Vec<Ident>,
    pub code: Vec<Token>,
}

impl Clone for Function {
    fn clone(&self) -> (r: Self)
        ensures
            r.ident == self.ident,
            r.args@ == self.args@,
            r.code@ == self.code@,
    {
        let args = self.args.clone();
        let code = self.code.clone();
        proof {
            assert(args@ =~= self.args@);
            assert(code@ =~= self.code@);
        }
        Function { ident: self.ident.clone(), args, code }
    }
}

/// Whether two positions of the sequence hold the same identifier.
pub open spec fn has_dup_idents(ids: Seq<Ident>) -> bool {
    exists|i: int, j: int| 0 <= i < j < ids.len() && ids[i]@ == ids[j]@
}

/// The identifiers that repeat an earlier one, in order of discovery.
pub open spec fn spec_dups(ids: Seq<Ident>) -> Seq<Ident>
    decreases ids.len(),
{
    if ids.len() == 0 {
        seq![]
    } else {
        spec_dups(ids.drop_last()) + if exists|j: int|
            0 <= j < ids.len() - 1 && ids[j]@ == ids.last()@ {
            seq![ids.last()]
        } else {
            seq![]
        }
    }
}

/// The discovered duplicates are nonempty exactly when some name repeats.
pub proof fn lemma_dups_iff(ids: Seq<Ident>)
    ensures
        spec_dups(ids).len() > 0 <==> has_dup_idents(ids),
    decreases ids.len(),
{
    if ids.len() == 0 {
    } else {
        lemma_dups_iff(ids.drop_last());
        if has_dup_idents(ids.drop_last()) {
            let (i, j) = choose|i: int, j: int|
                0 <= i < j < ids.drop_last().len() && ids.drop_last()[i]@ == ids.drop_last()[j]@;
            assert(ids[i]@ == ids[j]@);
        }
        if spec_dups(ids).len() > 0 && spec_dups(ids.drop_last()).len() == 0 {
            let j = choose|j: int| 0 <= j < ids.len() - 1 && ids[j]@ == ids.last()@;
            assert(ids[j]@ == ids[ids.len() - 1]@);
        }
        if has_dup_idents(ids) && !has_dup_idents(ids.drop_last()) {
            let (i, j) = choose|i: int, j: int| 0 <= i < j < ids.len() && ids[i]@ == ids[j]@;
            if j < ids.len() - 1 {
                assert(ids.drop_last()[i]@ == ids.drop_last()[j]@);
            }
        }
    }
}

/// The identifiers that appear earlier in the sequence than a second
/// occurrence of the same name; `None` when every name is unique.
#[verifier::rlimit(30)]
pub fn has_dups(idents: &Vec<Ident>) -> (r: Option<Vec<Ident>>)
    ensures
        r is Some <==> has_dup_idents(idents@),
        r matches Some(d) ==> d@ == spec_dups(idents@),
{
    let mut dups: Vec<Ident> = Vec::new();
    let mut i: usize = 0;
    proof {
        assert(idents@.subrange(0, 0) =~= Seq::<Ident>::empty());
        assert(spec_dups(idents@.subrange(0, 0)) =~= Seq::<Ident>::empty());
    }
    while i < idents.len()
        invariant
            i <= idents@.len(),
            dups@ == spec_dups(idents@.subrange(0, i as int)),
        decreases idents@.len() - i,
    {
        let mut seen: bool = false;
        let mut j: usize = 0;
        while j < i
            invariant
                j <= i < idents@.len(),
                seen == exists|k: int| 0 <= k < j && idents@[k]@ == idents@[i as int]@,
            decreases i - j,
        {
            if idents[j].same_as(&idents[i]) {
                seen = true;
            }
            j = j + 1;
        }
        if seen {
            dups.push(idents[i].clone());
        }
        proof {
            let pre = idents@.subrange(0, i as int);
            let cur = idents@.subrange(0, i + 1);
            assert(cur.drop_last() =~= pre);
            assert(cur.last() == idents@[i as int]);
            if seen {
                let k = choose|k: int| 0 <= k < i && idents@[k]@ == idents@[i as int]@;
                assert(cur[k]@ == cur.last()@);
                assert(dups@ =~= spec_dups(pre) + seq![idents@[i as int]]);
            } else {
                assert(forall|k: int| 0 <= k < cur.len() - 1 ==> cur[k]@ != cur.last()@);
            }
        }
        i = i + 1;
    }
    proof {
        assert(idents@.subrange(0, idents@.len() as int) =~= idents@);
        lemma_dups_iff(idents@);
    }
    if dups.len() == 0 {
        None
    } else {
        Some(dups)
    }
}

/// The first position at or after `idx` that does not hold an identifier
/// token; the length when every remaining token is one.
pub open spec fn spec_param_end(toks: Seq<Token>, idx: int) -> int
    decreases toks.len() - idx,
{
    if idx < 0 || idx >= toks.len() {
        idx
    } else if toks[idx] matches Token::Identifier(_) {
        spec_param_end(toks, idx + 1)
    } else {
        idx
    }
}

/// The scan for the parameter list never moves backward nor past the end.
pub proof fn lemma_param_end_bounds(toks: Seq<Token>, idx: int)
    requires
        0 <= idx <= toks.len(),
    ensures
        idx <= spec_param_end(toks, idx) <= toks.len(),
    decreases toks.len() - idx,
{
    if idx < toks.len() && toks[idx] matches Token::Identifier(_) {
        lemma_param_end_bounds(toks, idx + 1);
    }
}

/// The parameter names between the declaration head and the `=`.
pub open spec fn spec_params(toks: Seq<Token>, k: int) -> Seq<Ident> {
    toks.subrange(2, k).map_values(|t: Token| t->Identifier_0)
}

/// What a `function` declaration line parses to: the name, the parameter
/// list, and the body tokens, or the precise reason it is rejected.
pub open spec fn spec_function_decl(toks: Seq<Token>) -> Result<
    (Ident, Seq<Ident>, Seq<Token>),
    DeclarationError,
>
    recommends
        toks.len() > 0,
        toks[0] matches Token::Keyword(Keyword::Function),
{
    if toks.len() < 2 || !(toks[1] matches Token::Identifier(_)) {
        Err(DeclarationError::MissingIdentifier)
    } else {
        let k = spec_param_end(toks, 2);
        if k < toks.len() && !(toks[k] matches Token::Operator(Operator::Assign)) {
            Err(DeclarationError::UnexpectedParameter(toks[k]))
        } else {
            let body = if k < toks.len() {
                toks.subrange(k + 1, toks.len() as int)
            } else {
                Seq::<Token>::empty()
            };
            if body.len() == 0 {
                Err(DeclarationError::EmptyBody)
            } else if has_dup_idents(spec_params(toks, k)) {
                Err(DeclarationError::DuplicateParameter)
            } else {
                Ok((toks[1]->Identifier_0, spec_params(toks, k), body))
            }
        }
    }
}

/// Declaring a function whose otherwise well-formed parameter list repeats a
/// name always fails with the duplicate-parameter error.
pub proof fn lemma_duplicate_parameters_fail(toks: Seq<Token>, k: int)
    requires
        toks.len() >= 2,
        toks[1] matches Token::Identifier(_),
        spec_param_end(toks, 2) == k,
        2 <= k,
        k + 1 < toks.len(),
        toks[k] matches Token::Operator(Operator::Assign),
        has_dup_idents(spec_params(toks, k)),
    ensures
        spec_function_decl(toks) == Err::<(Ident, Seq<Ident>, Seq<Token>), DeclarationError>(
            DeclarationError::DuplicateParameter,
        ),
{
}

/// Declaring a function with nothing after the `=`, or with no `=` at all,
/// always fails with the empty-body error.
pub proof fn lemma_empty_body_fails(toks: Seq<Token>, k: int)
    requires
        toks.len() >= 2,
        toks[1] matches Token::Identifier(_),
        spec_param_end(toks, 2) == k,
        2 <= k,
        k == toks.len() || (k + 1 == toks.len() && toks[k] matches Token::Operator(
            Operator::Assign,
        )),
    ensures
        spec_function_decl(toks) == Err::<(Ident, Seq<Ident>, Seq<Token>), DeclarationError>(
            DeclarationError::EmptyBody,
        ),
{
}

impl Function {
    /// Parses a `function <name> <params...> = <body...>` token sequence,
    /// exactly as `spec_function_decl` describes; the caller guarantees the
    /// leading keyword.
    pub fn new(tokens: &Vec<Token>) -> (r: Result<Self, DeclarationError>)
        requires
            tokens@.len() > 0,
            tokens@[0] matches Token::Keyword(Keyword::Function),
        ensures
            match spec_function_decl(tokens@) {
                Ok(d) => r matches Ok(f) && f.ident == d.0 && f.args@ == d.1 && f.code@ == d.2,
                Err(e) => r matches Err(e2) && e2 == e,
            },
    {
        if tokens.len() < 2 {
            return Err(DeclarationError::MissingIdentifier);
        }
        let name: Ident = match &tokens[1] {
            Token::Identifier(id) => id.clone(),
            _ => {
                return Err(DeclarationError::MissingIdentifier);
            },
        };
        let mut args: Vec<Ident> = Vec::new();
        let mut idx: usize = 2;
        proof {
            assert(args@ =~= spec_params(tokens@, 2));
        }
        while idx < tokens.len() && matches!(&tokens[idx], Token::Identifier(_))
            invariant
                2 <= idx <= tokens@.len(),
                spec_param_end(tokens@, 2) == spec_param_end(tokens@, idx as int),
                forall|j: int| 2 <= j < idx ==> #[trigger] tokens@[j] matches Token::Identifier(_),
                args@ == spec_params(tokens@, idx as int),
            decreases tokens@.len() - idx,
        {
            match &tokens[idx] {
                Token::Identifier(id) => {
                    args.push(id.clone());
                },
                _ => {
                    proof {
                        assert(false);
                    }
                },
            }
            proof {
                assert(spec_params(tokens@, idx + 1) =~= spec_params(tokens@, idx as int).push(
                    tokens@[idx as int]->Identifier_0,
                ));
            }
            idx = idx + 1;
        }
        proof {
            assert(spec_param_end(tokens@, idx as int) == idx);
        }
        let ghost k = idx as int;
        if idx < tokens.len() {
            match &tokens[idx] {
                Token::Operator(Operator::Assign) => {},
                t => {
                    return Err(DeclarationError::UnexpectedParameter(t.clone()));
                },
            }
            idx = idx + 1;
        }
        if idx >= tokens.len() {
            return Err(DeclarationError::EmptyBody);
        }
        let mut code: Vec<Token> = Vec::new();
        let mut j: usize = idx;
        while j < tokens.len()
            invariant
                idx <= j <= tokens@.len(),
                code@ == tokens@.subrange(idx as int, j as int),
            decreases tokens@.len() - j,
        {
            code.push(tokens[j].clone());
            proof {
                assert(tokens@.subrange(idx as int, j + 1) =~= tokens@.subrange(
                    idx as int,
                    j as int,
                ).push(tokens@[j as int]));
            }
            j = j + 1;
        }
        if let Some(_) = has_dups(&args) {
            return Err(DeclarationError::DuplicateParameter);
        }
        proof {
            assert(code@ =~= tokens@.subrange(k + 1, tokens@.len() as int));
        }
        Ok(Function { ident: name, args, code })
    }

    /// The number of parameters the function declares.
    pub fn argc(&self) -> (r: usize)
        ensures
            r == self.args@.len(),
    {
        self.args.len()
    }

    /// Renders the declaration as one line whose words lex back to the
    /// declaring tokens, exactly as `spec_render_function` describes.
    pub fn render(&self) -> (r: String)
        ensures
            r@ == spec_render_function(*self),
    {
        let ghost ts = spec_decl_tokens(*self);
        let ghost na = self.args@.len() as int;
        let mut s = String::from_str("function");
        proof {
            assert(ts[0] == Token::Keyword(Keyword::Function));
            assert(s@ == crate::token::spec_render_tokens(ts, 1));
        }
        s.append(" ");
        s.append(self.ident.internal_cloned().as_str());
        proof {
            assert(ts[1] == Token::Identifier(self.ident));
            assert(s@ =~= crate::token::spec_render_tokens(ts, 2));
        }
        let mut i: usize = 0;
        while i < self.args.len()
            invariant
                i <= self.args@.len(),
                ts == spec_decl_tokens(*self),
                na == self.args@.len() as int,
                s@ == crate::token::spec_render_tokens(ts, 2 + i),
            decreases self.args@.len() - i,
        {
            s.append(" ");
            s.append(self.args[i].internal_cloned().as_str());
            proof {
                assert(ts[2 + i] == Token::Identifier(self.args@[i as int]));
                assert(s@ =~= crate::token::spec_render_tokens(ts, 2 + i + 1));
            }
            i = i + 1;
        }
        s.append(" ");
        s.append("=");
        proof {
            reveal_strlit("=");
            assert(ts[2 + na] == Token::Operator(Operator::Assign));
            assert("="@ =~= seq!['=']);
            assert(s@ =~= crate::token::spec_render_tokens(ts, 2 + na + 1));
        }
        let mut j: usize = 0;
        while j < self.code.len()
            invariant
                j <= self.code@.len(),
                ts == spec_decl_tokens(*self),
                na == self.args@.len() as int,
                s@ == crate::token::spec_render_tokens(ts, 3 + na + j),
            decreases self.code@.len() - j,
        {
            s.append(" ");
            let w = self.code[j].render();
            s.append(w.as_str());
            proof {
                assert(ts[3 + na + j] == self.code@[j as int]);
                assert(s@ =~= crate::token::spec_render_tokens(ts, 3 + na + j + 1));
            }
            j = j + 1;
        }
        proof {
            assert(ts.len() == 3 + na + self.code@.len());
        }
        s
    }

    /// Calls the function under the default evaluation depth budget.
    pub fn call(&self, args: &Vec<Token>, ctx: &Context) -> (r: Result<Num, EvalError>)
        requires
            ctx.wf(),
            tokens_wf(args@),
            tokens_wf(self.code@),
        ensures
            r == spec_function_call(
                ctx.functions@,
                ctx.variables@,
                *self,
                args@,
                MAX_DEPTH as nat,
            ),
            r matches Ok(n) ==> n.wf(),
    {
        self.call_depth(args, ctx, MAX_DEPTH)
    }

    /// Checks the argument count against the declared parameters, then
    /// substitutes the call arguments into the body and evaluates the result
    /// against the ambient context, exactly as `spec_function_call`
    /// describes.
    pub fn call_depth(&self, args: &Vec<Token>, ctx: &Context, depth: u64) -> (r: Result<
        Num,
        EvalError,
    >)
        requires
            ctx.wf(),
            tokens_wf(args@),
            tokens_wf(self.code@),
        ensures
            r == spec_function_call(ctx.functions@, ctx.variables@, *self, args@, depth as nat),
            r matches Ok(n) ==> n.wf(),
        decreases depth, 0int,
    {
        if args.len() != self.args.len() {
            return Err(
                EvalError::WrongArgumentCount { expected: self.args.len(), got: args.len() },
            );
        }
        if depth == 0 {
            return Err(EvalError::RecursionLimit);
        }
        let code = match substitute(&self.args, args, ctx, &self.code) {
            Ok(c) => c,
            Err(e) => {
                return Err(e);
            },
        };
        evaluate_depth(&code, ctx, depth - 1)
    }
}

/// The first position holding this identifier's name, continuing from `j`;
/// negative when there is none.
pub open spec fn spec_first_param(params: Seq<Ident>, id: Ident, j: int) -> int
    decreases params.len() - j,
{
    if j < 0 || j >= params.len() {
        -1
    } else if params[j]@ == id@ {
        j
    } else {
        spec_first_param(params, id, j + 1)
    }
}

/// The substituted body built from the first `n` body tokens: a parameter
/// name becomes the positional call argument, any other identifier the
/// ambient variable's current value; one naming a function or builtin
/// passes through for the parser to resolve, so a body may call other
/// functions, itself included. Everything else passes unchanged.
pub open spec fn spec_substitute(
    params: Seq<Ident>,
    args: Seq<Token>,
    funs: Map<Seq<char>, Function>,
    vars: Map<Seq<char>, Num>,
    code: Seq<Token>,
    n: int,
) -> Result<Seq<Token>, EvalError>
    decreases n,
{
    if n <= 0 {
        Ok(seq![])
    } else {
        match spec_substitute(params, args, funs, vars, code, n - 1) {
            Err(e) => Err(e),
            Ok(out) => match code[n - 1] {
                Token::Identifier(id) => {
                    let j = spec_first_param(params, id, 0);
                    if j >= 0 {
                        if j < args.len() {
                            Ok(out.push(args[j]))
                        } else {
                            Err(
                                EvalError::WrongArgumentCount {
                                    expected: params.len() as usize,
                                    got: args.len() as usize,
                                },
                            )
                        }
                    } else if vars.contains_key(id@) {
                        Ok(out.push(Token::Value(vars[id@])))
                    } else if funs.contains_key(id@) || crate::interpreter::spec_builtin_arity(
                        id@,
                    ) is Some {
                        Ok(out.push(code[n - 1]))
                    } else {
                        Err(EvalError::UnknownIdentifier(id))
                    }
                },
                t => Ok(out.push(t)),
            },
        }
    }
}

/// A substitution error reached at some prefix stays for the whole body.
proof fn lemma_substitute_err(
    params: Seq<Ident>,
    args: Seq<Token>,
    funs: Map<Seq<char>, Function>,
    vars: Map<Seq<char>, Num>,
    code: Seq<Token>,
    k: int,
    k2: int,
)
    requires
        spec_substitute(params, args, funs, vars, code, k) is Err,
        k <= k2,
    ensures
        spec_substitute(params, args, funs, vars, code, k2) == spec_substitute(
            params,
            args,
            funs,
            vars,
            code,
            k,
        ),
    decreases k2 - k,
{
    if k2 > k {
        lemma_substitute_err(params, args, funs, vars, code, k, k2 - 1);
    }
}

/// What one call of the function returns: an argument-count mismatch is an
/// evaluation error checked up front; otherwise substitution, then recursive
/// evaluation of the substituted body, one depth unit deeper.
pub open spec fn spec_function_call(
    funs: Map<Seq<char>, Function>,
    vars: Map<Seq<char>, Num>,
    f: Function,
    args: Seq<Token>,
    depth: nat,
) -> Result<Num, EvalError>
    decreases depth, 0int, 0int,
{
    if args.len() != f.args@.len() {
        Err(
            EvalError::WrongArgumentCount {
                expected: f.args@.len() as usize,
                got: args.len() as usize,
            },
        )
    } else if depth == 0 {
        Err(EvalError::RecursionLimit)
    } else {
        match spec_substitute(f.args@, args, funs, vars, f.code@, f.code@.len() as int) {
            Err(e) => Err(e),
            Ok(code) => spec_evaluate(funs, vars, code, (depth - 1) as nat),
        }
    }
}

/// The token sequence a declaration stands for: the keyword, the name, the
/// parameters, the equals sign, and the body.
pub open spec fn spec_decl_tokens(f: Function) -> Seq<Token> {
    seq![Token::Keyword(Keyword::Function), Token::Identifier(f.ident)] + f.args@.map_values(
        |id: Ident| Token::Identifier(id),
    ) + seq![Token::Operator(Operator::Assign)] + f.code@
}

/// The rendered form of a declaration: the words of its tokens, joined by
/// single spaces.
pub open spec fn spec_render_function(f: Function) -> Seq<char> {
    crate::token::spec_render_tokens(spec_decl_tokens(f), spec_decl_tokens(f).len() as int)
}

/// Every token of the parameter segment is an identifier.
pub proof fn lemma_param_end_idents(toks: Seq<Token>, idx: int, j: int)
    requires
        0 <= idx <= toks.len(),
        idx <= j < spec_param_end(toks, idx),
    ensures
        toks[j] matches Token::Identifier(_),
    decreases toks.len() - idx,
{
    lemma_param_end_bounds(toks, idx);
    if idx < toks.len() && toks[idx] matches Token::Identifier(_) {
        if j > idx {
            lemma_param_end_idents(toks, idx + 1, j);
        }
    }
}

/// Parsing a declaration loses nothing: the accepted token sequence is
/// exactly the keyword, the name, the parameters, the equals sign, and the
/// body, in that order. Together with `render`, whose output lexes word for
/// word back to these tokens, this is the declaration round trip.
pub proof fn lemma_function_decl_reconstruct(toks: Seq<Token>)
    requires
        toks.len() > 0,
        toks[0] matches Token::Keyword(Keyword::Function),
        spec_function_decl(toks) is Ok,
    ensures
        ({
            let d = spec_function_decl(toks)->Ok_0;
            toks == seq![Token::Keyword(Keyword::Function), Token::Identifier(d.0)] + d.1
                .map_values(|id: Ident| Token::Identifier(id)) + seq![
                Token::Operator(Operator::Assign),
            ] + d.2
        }),
{
    let d = spec_function_decl(toks)->Ok_0;
    let k = spec_param_end(toks, 2);
    lemma_param_end_bounds(toks, 2);
    let rebuilt = seq![Token::Keyword(Keyword::Function), Token::Identifier(d.0)] + d.1.map_values(
        |id: Ident| Token::Identifier(id),
    ) + seq![Token::Operator(Operator::Assign)] + d.2;
    assert(d.1 == spec_params(toks, k));
    assert(d.1.len() == k - 2);
    assert(d.2 == toks.subrange(k + 1, toks.len() as int));
    assert(rebuilt.len() == toks.len());
    assert forall|j: int| 0 <= j < toks.len() implies rebuilt[j] == toks[j] by {
        if j == 0 {
        } else if j == 1 {
            assert(toks[1] matches Token::Identifier(_));
        } else if j < k {
            lemma_param_end_idents(toks, 2, j);
            assert(d.1[j - 2] == toks.subrange(2, k)[j - 2]->Identifier_0);
            assert(toks.subrange(2, k)[j - 2] == toks[j]);
        } else if j == k {
            assert(toks[k] matches Token::Operator(Operator::Assign));
        } else {
            assert(d.2[j - (k + 1)] == toks[j]);
        }
    }
    assert(rebuilt =~= toks);
}

/// The declaration round trip: parsing a well-formed declaration line and
/// rendering the result gives text that lexes back to exactly the tokens the
/// line lexed to. The tokens must be ones rendering can reproduce: values
/// non-negative, identifiers letter words that spell no reserved word, and
/// every minus sign placed where the lexer reads it back the same way —
/// which `tokenize` guarantees of everything it returns.
pub proof fn lemma_declaration_round_trip(toks: Seq<Token>, f: Function)
    requires
        toks.len() > 0,
        toks[0] matches Token::Keyword(Keyword::Function),
        spec_function_decl(toks) is Ok,
        f.ident == (spec_function_decl(toks)->Ok_0).0,
        f.args@ == (spec_function_decl(toks)->Ok_0).1,
        f.code@ == (spec_function_decl(toks)->Ok_0).2,
        crate::token::renderable_tokens(toks),
    ensures
        crate::token::spec_tokenize(spec_render_function(f)) == Ok::<
            Seq<crate::token::TokenShape>,
            crate::errors::LexError,
        >(crate::token::tokens_view(toks)),
{
    lemma_function_decl_reconstruct(toks);
    assert(spec_decl_tokens(f) =~= toks);
    crate::token::lemma_render_tokens_lex_back(toks);
}

fn first_param(params: &Vec<Ident>, id: &Ident) -> (r: Option<usize>)
    ensures
        match r {
            Some(j) => spec_first_param(params@, *id, 0) == j as int,
            None => spec_first_param(params@, *id, 0) == -1,
        },
{
    let mut j: usize = 0;
    while j < params.len()
        invariant
            j <= params@.len(),
            spec_first_param(params@, *id, 0) == spec_first_param(params@, *id, j as int),
        decreases params@.len() - j,
    {
        if params[j].same_as(id) {
            return Some(j);
        }
        j = j + 1;
    }
    None
}

/// Builds the substituted body, exactly as `spec_substitute` describes.
fn substitute(params: &Vec<Ident>, args: &Vec<Token>, ctx: &Context, code: &Vec<Token>) -> (r:
    Result<Vec<Token>, EvalError>)
    requires
        tokens_wf(args@),
        ctx.wf(),
        tokens_wf(code@),
    ensures
        match spec_substitute(
            params@,
            args@,
            ctx.functions@,
            ctx.variables@,
            code@,
            code@.len() as int,
        ) {
            Ok(out) => r matches Ok(v) && v@ == out && tokens_wf(v@),
            Err(e) => r matches Err(e2) && e2 == e,
        },
{
    let mut out: Vec<Token> = Vec::new();
    let mut n: usize = 0;
    proof {
        assert(out@ =~= Seq::<Token>::empty());
    }
    while n < code.len()
        invariant
            n <= code@.len(),
            tokens_wf(args@),
            ctx.wf(),
            tokens_wf(code@),
            spec_substitute(params@, args@, ctx.functions@, ctx.variables@, code@, n as int)
                == Ok::<Seq<Token>, EvalError>(out@),
            tokens_wf(out@),
        decreases code@.len() - n,
    {
        match &code[n] {
            Token::Identifier(id) => match first_param(params, id) {
                Some(j) => {
                    if j < args.len() {
                        out.push(args[j].clone());
                    } else {
                        proof {
                            assert(spec_substitute(
                                params@,
                                args@,
                                ctx.functions@,
                                ctx.variables@,
                                code@,
                                n + 1,
                            ) is Err);
                            lemma_substitute_err(
                                params@,
                                args@,
                                ctx.functions@,
                                ctx.variables@,
                                code@,
                                n + 1,
                                code@.len() as int,
                            );
                        }
                        return Err(
                            EvalError::WrongArgumentCount {
                                expected: params.len(),
                                got: args.len(),
                            },
                        );
                    }
                },
                None => match ctx.variables.get(id) {
                    Some(v) => {
                        out.push(Token::Value(*v));
                    },
                    None => {
                        let known = match ctx.functions.get(id) {
                            Some(_) => true,
                            None => match crate::interpreter::builtin_arity(id) {
                                Some(_) => true,
                                None => false,
                            },
                        };
                        if known {
                            out.push(Token::Identifier(id.clone()));
                        } else {
                            proof {
                                assert(spec_substitute(
                                    params@,
                                    args@,
                                    ctx.functions@,
                                    ctx.variables@,
                                    code@,
                                    n + 1,
                                ) is Err);
                                lemma_substitute_err(
                                    params@,
                                    args@,
                                    ctx.functions@,
                                    ctx.variables@,
                                    code@,
                                    n + 1,
                                    code@.len() as int,
                                );
                            }
                            return Err(EvalError::UnknownIdentifier(id.clone()));
                        }
                    },
                },
            },
            t => {
                out.push(t.clone());
            },
        }
        n = n + 1;
    }
    Ok(out)
}

} // verus!
