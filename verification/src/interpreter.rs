//! The evaluation context: the variables and functions a session has
//! declared, declaration handling, and function dispatch.
//!
//! Builtins are a fixed name list consulted only after the user-defined
//! function table misses, so a user definition always takes priority over a
//! builtin of the same name.

use vstd::prelude::*;
use crate::errors::{DeclarationError, EvalError};
use crate::function::{spec_function_call, Function};
use crate::num::{
    acos_approx, asin_approx, cos_approx, lemma_num_canonical, s_div, sin_approx, spec_acos,
    spec_asin, spec_atan, spec_cos, spec_sin, atan_approx, Num,
};
use crate::rpn::{rpn_gen, rpn_eval_depth, spec_rpn_eval_full, spec_rpn_gen};
use crate::token::{tokens_wf, Ident, Keyword, Token};

verus! {

/// An association table from identifiers to values. Insertion appends, and
/// lookup takes the latest entry, so redefinition silently overwrites.
pub struct Table<V> {
    pub entries: Vec<(Ident, V)>,
}

/// The mapping a table holds: later entries win.
pub open spec fn spec_table_map<V>(entries: Seq<(Ident, V)>) -> Map<Seq<char>, V>
    decreases entries.len(),
{
    if entries.len() == 0 {
        Map::empty()
    } else {
        spec_table_map(entries.drop_last()).insert(entries.last().0@, entries.last().1)
    }
}

impl<V> View for Table<V> {
    type V = Map<Seq<char>, V>;

    open spec fn view(&self) -> Map<Seq<char>, V> {
        spec_table_map(self.entries@)
    }
}

/// An entry with no later entry of the same name gives the map's value at
/// that name.
proof fn lemma_table_last<V>(entries: Seq<(Ident, V)>, k: Seq<char>, i: int)
    requires
        0 <= i < entries.len(),
        entries[i].0@ == k,
        forall|j: int| i < j < entries.len() ==> entries[j].0@ != k,
    ensures
        spec_table_map(entries).contains_key(k),
        spec_table_map(entries)[k] == entries[i].1,
    decreases entries.len(),
{
    if i == entries.len() - 1 {
    } else {
        lemma_table_last(entries.drop_last(), k, i);
    }
}

/// A name on no entry at all is not in the map.
proof fn lemma_table_absent<V>(entries: Seq<(Ident, V)>, k: Seq<char>)
    requires
        forall|j: int| 0 <= j < entries.len() ==> entries[j].0@ != k,
    ensures
        !spec_table_map(entries).contains_key(k),
    decreases entries.len(),
{
    if entries.len() > 0 {
        lemma_table_absent(entries.drop_last(), k);
    }
}

impl<V> Table<V> {
    pub fn new() -> (r: Self)
        ensures
            r@ == Map::<Seq<char>, V>::empty(),
    {
        Table { entries: Vec::new() }
    }

    /// Binds `key` to `value`, replacing any earlier binding.
    pub fn insert(&mut self, key: Ident, value: V)
        ensures
            final(self)@ == old(self)@.insert(key@, value),
    {
        proof {
            assert(self.entries@.push((key, value)).drop_last() =~= self.entries@);
        }
        self.entries.push((key, value));
    }

    /// The value bound to `key`, if any.
    pub fn get(&self, key: &Ident) -> (r: Option<&V>)
        ensures
            match r {
                Some(v) => self@.contains_key(key@) && *v == self@[key@],
                None => !self@.contains_key(key@),
            },
    {
        let mut i: usize = self.entries.len();
        while i > 0
            invariant
                i <= self.entries@.len(),
                forall|j: int| i <= j < self.entries@.len() ==> self.entries@[j].0@ != key@,
            decreases i,
        {
            i = i - 1;
            if self.entries[i].0.same_as(key) {
                proof {
                    lemma_table_last(self.entries@, key@, i as int);
                }
                return Some(&self.entries[i].1);
            }
        }
        proof {
            lemma_table_absent(self.entries@, key@);
        }
        None
    }
}

/// The arity of a builtin name: the trigonometric functions take one
/// argument, the pair comparisons take two; anything else is no builtin.
pub open spec fn spec_builtin_arity(name: Seq<char>) -> Option<usize> {
    if name == "sin"@ || name == "cos"@ || name == "tan"@ || name == "asin"@ || name == "acos"@
        || name == "atan"@ {
        Some(1usize)
    } else if name == "min"@ || name == "max"@ {
        Some(2usize)
    } else {
        None
    }
}

pub fn builtin_arity(name: &Ident) -> (r: Option<usize>)
    ensures
        r == spec_builtin_arity(name@),
{
    let s = name.internal_cloned();
    if s == String::from_str("sin") || s == String::from_str("cos") || s == String::from_str("tan")
        || s == String::from_str("asin") || s == String::from_str("acos") || s == String::from_str(
        "atan",
    ) {
        Some(1)
    } else if s == String::from_str("min") || s == String::from_str("max") {
        Some(2)
    } else {
        None
    }
}

/// The live state of a session: the defined functions and variables. Read
/// by every evaluation, mutated only by declaration handling.
pub struct Context {
    pub functions: Table<Function>,
    pub variables: Table<Num>,
}

impl Context {
    /// Every stored variable value is well formed, and every stored
    /// function body holds only well-formed value tokens.
    pub open spec fn wf(&self) -> bool {
        &&& forall|k: Seq<char>|
            self.variables@.contains_key(k) ==> (#[trigger] self.variables@[k]).wf()
        &&& forall|k: Seq<char>|
            self.functions@.contains_key(k) ==> tokens_wf(
                (#[trigger] self.functions@[k]).code@,
            )
    }

    /// A fresh context: no variables, no user functions; the builtin name
    /// list stands apart and needs no entries.
    pub fn new() -> (r: Self)
        ensures
            r.functions@ == Map::<Seq<char>, Function>::empty(),
            r.variables@ == Map::<Seq<char>, Num>::empty(),
            r.wf(),
    {
        Context { functions: Table::new(), variables: Table::new() }
    }

    /// Parses a `function` declaration and stores the result under its name,
    /// replacing any earlier definition.
    pub fn new_func(&mut self, tokens: &Vec<Token>) -> (r: Result<Function, DeclarationError>)
        requires
            tokens@.len() > 0,
            tokens@[0] matches Token::Keyword(Keyword::Function),
            tokens_wf(tokens@),
        ensures
            old(self).wf() ==> final(self).wf(),
            final(self).variables@ == old(self).variables@,
            match crate::function::spec_function_decl(tokens@) {
                Ok(d) => r matches Ok(f) && f.ident == d.0 && f.args@ == d.1 && f.code@ == d.2 && ({
                    let g = final(self).functions@[d.0@];
                    &&& final(self).functions@.contains_key(d.0@)
                    &&& g.ident == d.0
                    &&& g.args@ == d.1
                    &&& g.code@ == d.2
                    &&& final(self).functions@ == old(self).functions@.insert(d.0@, g)
                }),
                Err(e) => r matches Err(e2) && e2 == e
                    && final(self).functions@ == old(self).functions@,
            },
    {
        let func = match Function::new(tokens) {
            Ok(f) => f,
            Err(e) => {
                return Err(e);
            },
        };
        let stored = func.clone();
        proof {
            crate::function::lemma_param_end_bounds(tokens@, 2);
            crate::token::lemma_tokens_wf_subrange(
                tokens@,
                crate::function::spec_param_end(tokens@, 2) + 1,
                tokens@.len() as int,
            );
        }
        self.functions.insert(func.ident.clone(), stored);
        Ok(func)
    }

    /// Parses a `var <name> = <expression>` line, evaluates the right-hand
    /// side eagerly against the current context, and stores the value,
    /// silently overwriting any earlier binding; exactly as `spec_var_decl`
    /// describes.
    pub fn new_var(&mut self, tokens: &Vec<Token>) -> (r: Result<(Ident, Num), DeclarationError>)
        requires
            tokens@.len() > 0,
            tokens@[0] matches Token::Keyword(Keyword::Variable),
            tokens_wf(tokens@),
            old(self).wf(),
        ensures
            final(self).wf(),
            final(self).functions@ == old(self).functions@,
            match spec_var_decl(
                old(self).functions@,
                old(self).variables@,
                tokens@,
                MAX_DEPTH as nat,
            ) {
                Ok(d) => r matches Ok(p) && p.0 == d.0 && p.1 == d.1 && d.1.wf()
                    && final(self).variables@ == old(self).variables@.insert(d.0@, d.1),
                Err(e) => r matches Err(e2) && e2 == e
                    && final(self).variables@ == old(self).variables@,
            },
    {
        if tokens.len() < 2 {
            return Err(DeclarationError::MissingIdentifier);
        }
        let ident: Ident = match &tokens[1] {
            Token::Identifier(id) => id.clone(),
            _ => {
                return Err(DeclarationError::MissingIdentifier);
            },
        };
        if tokens.len() < 3 {
            return Err(DeclarationError::MissingAssignment);
        }
        match &tokens[2] {
            Token::Operator(crate::token::Operator::Assign) => {},
            _ => {
                return Err(DeclarationError::MissingAssignment);
            },
        }
        let mut code: Vec<Token> = Vec::new();
        let mut j: usize = 3;
        while j < tokens.len()
            invariant
                3 <= j <= tokens@.len(),
                code@ == tokens@.subrange(3, j as int),
                tokens_wf(tokens@),
            decreases tokens@.len() - j,
        {
            code.push(tokens[j].clone());
            proof {
                assert(tokens@.subrange(3, j + 1) =~= tokens@.subrange(3, j as int).push(
                    tokens@[j as int],
                ));
            }
            j = j + 1;
        }
        proof {
            assert(tokens_wf(code@));
        }
        let val = match evaluate_depth(&code, self, MAX_DEPTH) {
            Ok(v) => v,
            Err(e) => {
                return Err(DeclarationError::Evaluation(e));
            },
        };
        self.variables.insert(ident.clone(), val);
        Ok((ident, val))
    }

    /// Dispatches a call by name under the default depth budget.
    pub fn call_function(&self, ident: Ident, args: &Vec<Token>) -> (r: Result<Num, EvalError>)
        requires
            self.wf(),
            tokens_wf(args@),
        ensures
            r == spec_call_function(self.functions@, self.variables@, ident, args@, MAX_DEPTH as nat),
            r matches Ok(n) ==> n.wf(),
    {
        self.call_function_depth(ident, args, MAX_DEPTH)
    }

    /// Dispatches a call by name: a user-defined function takes priority,
    /// then the builtin list, else the name is unknown; exactly as
    /// `spec_call_function` describes.
    pub fn call_function_depth(&self, ident: Ident, args: &Vec<Token>, depth: u64) -> (r: Result<
        Num,
        EvalError,
    >)
        requires
            self.wf(),
            tokens_wf(args@),
        ensures
            r == spec_call_function(self.functions@, self.variables@, ident, args@, depth as nat),
            r matches Ok(n) ==> n.wf(),
        decreases depth, 1int,
    {
        match self.functions.get(&ident) {
            Some(f) => f.call_depth(args, self, depth),
            None => match builtin_arity(&ident) {
                Some(n) => builtin_call(&ident, args, n),
                None => Err(EvalError::UnknownFunction(ident)),
            },
        }
    }
}

/// The default evaluation depth budget: how deeply function calls may nest
/// before the evaluator reports a recursion failure instead of exhausting
/// the host stack.
pub const MAX_DEPTH: u64 = 64;

/// What one call by name returns: the user definition under the name if
/// there is one, else the builtin of that name, else an unknown-function
/// error.
pub open spec fn spec_call_function(
    funs: Map<Seq<char>, Function>,
    vars: Map<Seq<char>, Num>,
    ident: Ident,
    args: Seq<Token>,
    depth: nat,
) -> Result<Num, EvalError>
    decreases depth, 1int, 0int,
{
    if funs.contains_key(ident@) {
        spec_function_call(funs, vars, funs[ident@], args, depth)
    } else {
        match spec_builtin_arity(ident@) {
            Some(n) => spec_builtin_call(ident@, args, n),
            None => Err(EvalError::UnknownFunction(ident)),
        }
    }
}

/// Calling a builtin name that no user definition shadows with the wrong
/// number of arguments always fails with the argument-count error, naming
/// the expected and the received count.
pub proof fn lemma_builtin_wrong_arity(
    funs: Map<Seq<char>, Function>,
    vars: Map<Seq<char>, Num>,
    ident: Ident,
    args: Seq<Token>,
    n: usize,
    depth: nat,
)
    requires
        !funs.contains_key(ident@),
        spec_builtin_arity(ident@) == Some(n),
        args.len() != n,
    ensures
        spec_call_function(funs, vars, ident, args, depth) == Err::<Num, EvalError>(
            EvalError::WrongArgumentCount { expected: n, got: args.len() as usize },
        ),
{
}

/// Dispatch prefers the user definition: a name with a stored definition is
/// never treated as a builtin, so a user definition of a builtin name
/// shadows the builtin.
pub proof fn lemma_user_definition_shadows_builtin(
    funs: Map<Seq<char>, Function>,
    vars: Map<Seq<char>, Num>,
    ident: Ident,
    args: Seq<Token>,
    depth: nat,
)
    requires
        funs.contains_key(ident@),
    ensures
        spec_call_function(funs, vars, ident, args, depth) == spec_function_call(
            funs,
            vars,
            funs[ident@],
            args,
            depth,
        ),
{
}

/// Calling a user-defined function with the wrong number of arguments
/// always fails with the argument-count error, naming the declared and the
/// received count.
pub proof fn lemma_function_wrong_arity(
    funs: Map<Seq<char>, Function>,
    vars: Map<Seq<char>, Num>,
    ident: Ident,
    args: Seq<Token>,
    depth: nat,
)
    requires
        funs.contains_key(ident@),
        args.len() != funs[ident@].args@.len(),
    ensures
        spec_call_function(funs, vars, ident, args, depth) == Err::<Num, EvalError>(
            EvalError::WrongArgumentCount {
                expected: funs[ident@].args@.len() as usize,
                got: args.len() as usize,
            },
        ),
{
}

/// The tangent builtin: the sine approximation over the cosine
/// approximation.
pub open spec fn spec_tan_call(x: Num) -> Result<Num, EvalError> {
    match spec_sin(x) {
        None => Err(EvalError::Overflow),
        Some(s) => match spec_cos(x) {
            None => Err(EvalError::Overflow),
            Some(c) => if c@ == 0 {
                Err(EvalError::DivisionByZero)
            } else {
                match s_div(s, c) {
                    None => Err(EvalError::Overflow),
                    Some(v) => Ok(v),
                }
            },
        },
    }
}

/// What a builtin call returns: the arity is checked first, every argument
/// must be a plain value, and the name selects the operation; `min` and
/// `max` are exact, the trigonometric names are the library's fixed-point
/// series approximations.
pub open spec fn spec_builtin_call(name: Seq<char>, args: Seq<Token>, n: usize) -> Result<
    Num,
    EvalError,
>
    recommends
        spec_builtin_arity(name) == Some(n),
{
    if args.len() != n as int {
        Err(EvalError::WrongArgumentCount { expected: n, got: args.len() as usize })
    } else if exists|i: int| 0 <= i < args.len() && !((#[trigger] args[i]) matches Token::Value(_)) {
        Err(EvalError::ExpectedValue)
    } else if n == 1 {
        let x = args[0]->Value_0;
        if name == "sin"@ {
            match spec_sin(x) {
                Some(v) => Ok(v),
                None => Err(EvalError::Overflow),
            }
        } else if name == "cos"@ {
            match spec_cos(x) {
                Some(v) => Ok(v),
                None => Err(EvalError::Overflow),
            }
        } else if name == "tan"@ {
            spec_tan_call(x)
        } else if name == "asin"@ {
            match spec_asin(x) {
                Some(v) => Ok(v),
                None => Err(EvalError::Overflow),
            }
        } else if name == "acos"@ {
            match spec_acos(x) {
                Some(v) => Ok(v),
                None => Err(EvalError::Overflow),
            }
        } else {
            match spec_atan(x) {
                Some(v) => Ok(v),
                None => Err(EvalError::Overflow),
            }
        }
    } else {
        let a = args[0]->Value_0;
        let b = args[1]->Value_0;
        if name == "min"@ {
            Ok(
                if a@ <= b@ {
                    a
                } else {
                    b
                },
            )
        } else {
            Ok(
                if a@ <= b@ {
                    b
                } else {
                    a
                },
            )
        }
    }
}

/// Runs one builtin, exactly as `spec_builtin_call` describes.
fn builtin_call(name: &Ident, args: &Vec<Token>, n: usize) -> (r: Result<Num, EvalError>)
    requires
        spec_builtin_arity(name@) == Some(n),
        tokens_wf(args@),
    ensures
        r == spec_builtin_call(name@, args@, n),
        r matches Ok(v) ==> v.wf(),
{
    if args.len() != n {
        return Err(EvalError::WrongArgumentCount { expected: n, got: args.len() });
    }
    let s = name.internal_cloned();
    if n == 1 {
        let x: Num = match &args[0] {
            Token::Value(v) => *v,
            _ => {
                return Err(EvalError::ExpectedValue);
            },
        };
        proof {
            assert(forall|i: int| 0 <= i < args@.len() ==> (#[trigger] args@[i]) matches Token::Value(_));
        }
        if s == String::from_str("sin") {
            match sin_approx(x) {
                Some(v) => Ok(v),
                None => Err(EvalError::Overflow),
            }
        } else if s == String::from_str("cos") {
            match cos_approx(x) {
                Some(v) => Ok(v),
                None => Err(EvalError::Overflow),
            }
        } else if s == String::from_str("tan") {
            let si = match sin_approx(x) {
                Some(v) => v,
                None => {
                    return Err(EvalError::Overflow);
                },
            };
            let co = match cos_approx(x) {
                Some(v) => v,
                None => {
                    return Err(EvalError::Overflow);
                },
            };
            if co.is_zero() {
                return Err(EvalError::DivisionByZero);
            }
            match si.checked_div(co) {
                Some(v) => {
                    proof {
                        lemma_num_canonical(v, v@);
                    }
                    Ok(v)
                },
                None => Err(EvalError::Overflow),
            }
        } else if s == String::from_str("asin") {
            match asin_approx(x) {
                Some(v) => Ok(v),
                None => Err(EvalError::Overflow),
            }
        } else if s == String::from_str("acos") {
            match acos_approx(x) {
                Some(v) => Ok(v),
                None => Err(EvalError::Overflow),
            }
        } else {
            match atan_approx(x) {
                Some(v) => Ok(v),
                None => Err(EvalError::Overflow),
            }
        }
    } else {
        let a: Num = match &args[0] {
            Token::Value(v) => *v,
            _ => {
                return Err(EvalError::ExpectedValue);
            },
        };
        let b: Num = match &args[1] {
            Token::Value(v) => *v,
            _ => {
                return Err(EvalError::ExpectedValue);
            },
        };
        proof {
            assert(forall|i: int| 0 <= i < args@.len() ==> (#[trigger] args@[i]) matches Token::Value(_));
        }
        if s == String::from_str("min") {
            if a.le(b) {
                Ok(a)
            } else {
                Ok(b)
            }
        } else {
            if a.le(b) {
                Ok(b)
            } else {
                Ok(a)
            }
        }
    }
}

/// What evaluating an infix token sequence returns: conversion to postfix
/// order, then stack execution of the postfix form.
pub open spec fn spec_evaluate(
    funs: Map<Seq<char>, Function>,
    vars: Map<Seq<char>, Num>,
    toks: Seq<Token>,
    depth: nat,
) -> Result<Num, EvalError>
    decreases depth, 4int, 0int,
{
    match spec_rpn_gen(funs, vars, toks) {
        Err(p) => Err(EvalError::Parse(p)),
        Ok(rpn) => spec_rpn_eval_full(funs, vars, rpn, depth),
    }
}

/// What a `var` declaration line produces: the name and the eagerly
/// evaluated value of its right-hand side.
pub open spec fn spec_var_decl(
    funs: Map<Seq<char>, Function>,
    vars: Map<Seq<char>, Num>,
    toks: Seq<Token>,
    depth: nat,
) -> Result<(Ident, Num), DeclarationError>
    decreases depth, 5int, 0int,
{
    if toks.len() < 2 || !(toks[1] matches Token::Identifier(_)) {
        Err(DeclarationError::MissingIdentifier)
    } else if toks.len() < 3 || !(toks[2] matches Token::Operator(crate::token::Operator::Assign)) {
        Err(DeclarationError::MissingAssignment)
    } else {
        match spec_evaluate(funs, vars, toks.subrange(3, toks.len() as int), depth) {
            Err(e) => Err(DeclarationError::Evaluation(e)),
            Ok(v) => Ok((toks[1]->Identifier_0, v)),
        }
    }
}

/// Evaluates an infix token sequence under the default depth budget.
pub fn evaluate(tokens: &Vec<Token>, ctx: &Context) -> (r: Result<Num, EvalError>)
    requires
        tokens_wf(tokens@),
        ctx.wf(),
    ensures
        r == spec_evaluate(ctx.functions@, ctx.variables@, tokens@, MAX_DEPTH as nat),
        r matches Ok(n) ==> n.wf(),
{
    evaluate_depth(tokens, ctx, MAX_DEPTH)
}

/// Evaluates an infix token sequence, exactly as `spec_evaluate` describes.
pub fn evaluate_depth(tokens: &Vec<Token>, ctx: &Context, depth: u64) -> (r: Result<
    Num,
    EvalError,
>)
    requires
        tokens_wf(tokens@),
        ctx.wf(),
    ensures
        r == spec_evaluate(ctx.functions@, ctx.variables@, tokens@, depth as nat),
        r matches Ok(n) ==> n.wf(),
    decreases depth, 3int,
{
    let rpn = match rpn_gen(tokens, ctx) {
        Ok(v) => v,
        Err(p) => {
            return Err(EvalError::Parse(p));
        },
    };
    rpn_eval_depth(&rpn, ctx, depth)
}

} // verus!
