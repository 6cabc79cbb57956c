//! The token model and the lexer.
//!
//! A token is a numeric literal, an operator, a declaration keyword, an
//! identifier, or a reference to a function resolved during parsing. The
//! lexer scans text left to right with two accumulation buffers, one for a
//! numeric literal and one for an identifier word, and recognizes operator
//! characters directly; a `-` met at a fresh boundary directly after another
//! operator (or at the very start) is unary negation rather than subtraction.

use vstd::prelude::*;
use crate::errors::{EvalError, LexError};
use crate::num::{abs_int, fix_div, fix_mul, fix_pow, fix_pow_ok, lemma_num_canonical, spec_num_of_int, Num, SCALE};

verus! {

// ---------------------------------------------------------------------------
// Character classes
// ---------------------------------------------------------------------------
pub open spec fn is_digit_char(c: char) -> bool {
    48 <= c as int && c as int <= 57
}

pub open spec fn is_alpha_char(c: char) -> bool {
    (65 <= c as int && c as int <= 90) || (97 <= c as int && c as int <= 122)
}

pub fn char_is_digit(c: char) -> (r: bool)
    ensures
        r == is_digit_char(c),
{
    let u = c as u32;
    48 <= u && u <= 57
}

pub fn char_is_alpha(c: char) -> (r: bool)
    ensures
        r == is_alpha_char(c),
{
    let u = c as u32;
    (65 <= u && u <= 90) || (97 <= u && u <= 122)
}

/// A word character of the identifier grammar: a letter, a digit, or an
/// underscore.
pub open spec fn is_word_char(c: char) -> bool {
    is_alpha_char(c) || is_digit_char(c) || c == '_'
}

/// The identifier grammar: a nonempty word of word characters that starts
/// with a non-digit word character (a letter or an underscore).
pub open spec fn spec_ident_ok(s: Seq<char>) -> bool {
    &&& s.len() > 0
    &&& (is_alpha_char(s[0]) || s[0] == '_')
    &&& forall|i: int| 0 <= i < s.len() ==> is_word_char(#[trigger] s[i])
}

/// Tests the identifier grammar.
fn ident_word_shape(text: &str) -> (r: bool)
    ensures
        r == spec_ident_ok(text@),
{
    let n = text.unicode_len();
    if n == 0 {
        return false;
    }
    let c0 = text.get_char(0);
    if !(char_is_alpha(c0) || c0 == '_') {
        return false;
    }
    let mut i: usize = 0;
    while i < n
        invariant
            i <= n,
            n == text@.len(),
            forall|j: int| 0 <= j < i ==> is_word_char(#[trigger] text@[j]),
        decreases n - i,
    {
        let c = text.get_char(i);
        if !(char_is_alpha(c) || char_is_digit(c) || c == '_') {
            return false;
        }
        i = i + 1;
    }
    true
}

// ---------------------------------------------------------------------------
// Trusted items
// ---------------------------------------------------------------------------
/// What the identifier-shape test returns on a given string; the result of a
/// fixed regular expression, so a function of the characters alone.
pub uninterp spec fn ident_match(s: Seq<char>) -> bool;

/// Relies on `regex::Regex::new` and `regex::Regex::is_match`: the fixed
/// pattern means "after an optional run of whitespace, a character that is
/// not a decimal digit", so it matches exactly the nonempty strings whose
/// first character is not a digit; for an ASCII first character the digits
/// are `'0'` through `'9'`. The pattern is a valid expression, so compiling
/// it cannot fail.
#[verifier::external_body]
fn ident_shape_matches(s: &str) -> (r: bool)
    ensures
        r == ident_match(s@),
        s@.len() == 0 ==> !r,
        s@.len() > 0 && (s@[0] as int) < 128 ==> (r <==> !is_digit_char(s@[0])),
{
    regex::Regex::new(r#"^((\s)+)?(\D\w*)(\d)?"#).unwrap().is_match(s)
}

/// Relies on `Iterator::collect` for `String`: collecting characters yields
/// the string of exactly those characters in order.
#[verifier::external_body]
fn chars_to_string(v: &Vec<char>) -> (r: String)
    ensures
        r@ == v@,
{
    v.iter().collect()
}

// ---------------------------------------------------------------------------
// Identifiers
// ---------------------------------------------------------------------------
/// A validated identifier: a nonempty word of letters, digits and
/// underscores that does not begin with a digit. Equality is by string
/// value.
#[derive(PartialEq, Eq, Hash, Debug)]
pub struct Ident(String);

impl View for Ident {
    type V = Seq<char>;

    closed spec fn view(&self) -> Seq<char> {
        self.0@
    }
}

impl Clone for Ident {
    fn clone(&self) -> (r: Self)
        ensures
            r == *self,
    {
        Ident(self.0.clone())
    }
}

impl Ident {
    /// Accepts exactly the identifier grammar: a nonempty word of word
    /// characters starting with a letter or an underscore. The shape test of
    /// the pattern match is consulted first; the grammar check narrows its
    /// looser shape (any string not starting with a digit) to the grammar.
    pub fn new(s: String) -> (r: Option<Self>)
        ensures
            r matches Some(id) ==> id@ == s@,
            r is Some <==> spec_ident_ok(s@),
    {
        if ident_shape_matches(s.as_str()) && ident_word_shape(s.as_str()) {
            Some(Ident(s))
        } else {
            proof {
                if spec_ident_ok(s@) {
                    assert(is_alpha_char(s@[0]) || s@[0] == '_');
                    assert((s@[0] as int) < 128 && !is_digit_char(s@[0]));
                }
            }
            None
        }
    }

    pub fn internal_cloned(&self) -> (r: String)
        ensures
            r@ == self@,
    {
        self.0.clone()
    }

    pub fn same_as(&self, other: &Ident) -> (r: bool)
        ensures
            r == (self@ == other@),
    {
        self.0 == other.0
    }
}

// ---------------------------------------------------------------------------
// Operators
// ---------------------------------------------------------------------------
#[derive(Debug, PartialEq, Eq, Structural, Clone, Copy)]
pub enum Operator {
    Add,
    Sub,
    Mul,
    Div,
    USub,
    Pow,
    Assign,
    LParen,
    RParen,
}

#[derive(Debug, PartialEq, Eq, Structural, Clone, Copy)]
pub enum OperatorAssociativity {
    Left,
    Right,
}

pub open spec fn spec_op_of_char(c: char) -> Option<Operator> {
    if c == '+' {
        Some(Operator::Add)
    } else if c == '-' {
        Some(Operator::Sub)
    } else if c == '*' {
        Some(Operator::Mul)
    } else if c == '/' {
        Some(Operator::Div)
    } else if c == '^' {
        Some(Operator::Pow)
    } else if c == '=' {
        Some(Operator::Assign)
    } else if c == '(' {
        Some(Operator::LParen)
    } else if c == ')' {
        Some(Operator::RParen)
    } else {
        None
    }
}

pub fn op_of_char(c: char) -> (r: Option<Operator>)
    ensures
        r == spec_op_of_char(c),
{
    match c {
        '+' => Some(Operator::Add),
        '-' => Some(Operator::Sub),
        '*' => Some(Operator::Mul),
        '/' => Some(Operator::Div),
        '^' => Some(Operator::Pow),
        '=' => Some(Operator::Assign),
        '(' => Some(Operator::LParen),
        ')' => Some(Operator::RParen),
        _ => None,
    }
}

pub open spec fn spec_op_of_word(s: Seq<char>) -> Option<Operator> {
    if s.len() == 1 {
        spec_op_of_char(s[0])
    } else {
        None
    }
}

pub open spec fn spec_associativity(op: Operator) -> OperatorAssociativity {
    match op {
        Operator::Pow => OperatorAssociativity::Right,
        _ => OperatorAssociativity::Left,
    }
}

pub open spec fn spec_precedence(op: Operator) -> u8 {
    match op {
        Operator::USub => 7,
        Operator::Pow => 6,
        Operator::Mul => 5,
        Operator::Div => 5,
        Operator::Add => 4,
        Operator::Sub => 4,
        _ => 0,
    }
}

impl Operator {
    pub fn new(s: String) -> (r: Option<Self>)
        ensures
            r == spec_op_of_word(s@),
    {
        let st = s.as_str();
        if st.unicode_len() != 1 {
            return None;
        }
        op_of_char(st.get_char(0))
    }

    pub fn associativity(&self) -> (r: OperatorAssociativity)
        ensures
            r == spec_associativity(*self),
    {
        match self {
            Self::Pow => OperatorAssociativity::Right,
            _ => OperatorAssociativity::Left,
        }
    }

    pub fn precedence(&self) -> (r: u8)
        ensures
            r == spec_precedence(*self),
    {
        match self {
            Self::USub => 7,
            Self::Pow => 6,
            Self::Mul | Self::Div => 5,
            Self::Add | Self::Sub => 4,
            _ => 0,
        }
    }

    /// The numeric reduction of one operator over the two most recent stack
    /// values, `a` popped after `b`: the binary operators apply in literal
    /// order (`b` is the left operand), unary negation uses `a` alone, and
    /// assignment and parentheses carry no operation at all.
    pub fn operate(&self, a: Num, b: Num) -> (r: Result<Num, EvalError>)
        requires
            a.wf(),
            b.wf(),
        ensures
            r == spec_operate(*self, a, b),
            r matches Ok(n) ==> n.wf(),
    {
        match self {
            Self::Add => match b.checked_add(a) {
                Some(n) => {
                    proof {
                        lemma_num_canonical(n, n@);
                    }
                    Ok(n)
                },
                None => Err(EvalError::Overflow),
            },
            Self::Sub => match b.checked_sub(a) {
                Some(n) => {
                    proof {
                        lemma_num_canonical(n, n@);
                    }
                    Ok(n)
                },
                None => Err(EvalError::Overflow),
            },
            Self::Mul => match b.checked_mul(a) {
                Some(n) => {
                    proof {
                        lemma_num_canonical(n, n@);
                    }
                    Ok(n)
                },
                None => Err(EvalError::Overflow),
            },
            Self::Div => {
                if a.is_zero() {
                    Err(EvalError::DivisionByZero)
                } else {
                    match b.checked_div(a) {
                        Some(n) => {
                            proof {
                                lemma_num_canonical(n, n@);
                            }
                            Ok(n)
                        },
                        None => Err(EvalError::Overflow),
                    }
                }
            },
            Self::Pow => pow_op(b, a),
            Self::USub => {
                let n = a.negated();
                proof {
                    lemma_num_canonical(n, n@);
                }
                Ok(n)
            },
            _ => Err(EvalError::InvalidOperator(*self)),
        }
    }
}

/// What the power operator returns: `base` raised to the exponent `ex`,
/// which must be an exact integer; a negative exponent inverts the positive
/// power.
pub open spec fn spec_pow_result(base: Num, ex: Num) -> Result<Num, EvalError> {
    if ex.mag as int % SCALE as int != 0 {
        Err(EvalError::NonIntegerExponent)
    } else {
        let e = (ex.mag as int / SCALE as int) as nat;
        if !fix_pow_ok(base@, e) {
            Err(EvalError::Overflow)
        } else if !ex.neg {
            Ok(spec_num_of_int(fix_pow(base@, e)))
        } else if fix_pow(base@, e) == 0 {
            Err(EvalError::DivisionByZero)
        } else {
            Ok(spec_num_of_int(fix_div(SCALE as int, fix_pow(base@, e))))
        }
    }
}

/// What `operate` returns, as a function of the operator and the operands:
/// `a` was popped after `b`, so `b` is the left operand in literal order.
pub open spec fn spec_operate(op: Operator, a: Num, b: Num) -> Result<Num, EvalError> {
    match op {
        Operator::Add => if abs_int(b@ + a@) > u128::MAX {
            Err(EvalError::Overflow)
        } else {
            Ok(spec_num_of_int(b@ + a@))
        },
        Operator::Sub => if abs_int(b@ - a@) > u128::MAX {
            Err(EvalError::Overflow)
        } else {
            Ok(spec_num_of_int(b@ - a@))
        },
        Operator::Mul => if b.mag * a.mag > u128::MAX {
            Err(EvalError::Overflow)
        } else {
            Ok(spec_num_of_int(fix_mul(b@, a@)))
        },
        Operator::Div => if a@ == 0 {
            Err(EvalError::DivisionByZero)
        } else if b.mag * SCALE > u128::MAX {
            Err(EvalError::Overflow)
        } else {
            Ok(spec_num_of_int(fix_div(b@, a@)))
        },
        Operator::Pow => spec_pow_result(b, a),
        Operator::USub => Ok(spec_num_of_int(-a@)),
        _ => Err(EvalError::InvalidOperator(op)),
    }
}

/// `base ^ ex` with the exponent checked to be an exact integer.
fn pow_op(base: Num, ex: Num) -> (r: Result<Num, EvalError>)
    requires
        base.wf(),
        ex.wf(),
    ensures
        r == spec_pow_result(base, ex),
        r matches Ok(n) ==> n.wf(),
{
    if !ex.is_integer() {
        return Err(EvalError::NonIntegerExponent);
    }
    let e = ex.integer_magnitude();
    match base.checked_pow(e) {
        None => Err(EvalError::Overflow),
        Some(p) => {
            proof {
                lemma_num_canonical(p, p@);
            }
            if !ex.is_negative() {
                Ok(p)
            } else if p.is_zero() {
                Err(EvalError::DivisionByZero)
            } else {
                match Num::one().checked_div(p) {
                    Some(n) => {
                        proof {
                            lemma_num_canonical(n, n@);
                        }
                        Ok(n)
                    },
                    None => {
                        proof {
                            assert(SCALE * SCALE <= u128::MAX);
                        }
                        Err(EvalError::Overflow)
                    },
                }
            }
        },
    }
}

// ---------------------------------------------------------------------------
// Keywords
// ---------------------------------------------------------------------------
#[derive(PartialEq, Eq, Structural, Debug, Clone, Copy)]
pub enum Keyword {
    Function,
    Variable,
}

pub open spec fn spec_keyword_of_word(s: Seq<char>) -> Option<Keyword> {
    if s == "function"@ {
        Some(Keyword::Function)
    } else if s == "var"@ {
        Some(Keyword::Variable)
    } else {
        None
    }
}

impl Keyword {
    pub fn new(s: String) -> (r: Option<Self>)
        ensures
            r == spec_keyword_of_word(s@),
    {
        if s == String::from_str("function") {
            Some(Self::Function)
        } else if s == String::from_str("var") {
            Some(Self::Variable)
        } else {
            None
        }
    }
}

// ---------------------------------------------------------------------------
// Tokens
// ---------------------------------------------------------------------------
/// A reference to a function resolved during parsing: its name and the
/// number of arguments it consumes from the evaluation stack.
#[derive(PartialEq, Debug)]
pub struct FunctionRef {
    pub ident: Ident,
    pub argc: usize,
}

impl Clone for FunctionRef {
    fn clone(&self) -> (r: Self)
        ensures
            r == *self,
    {
        FunctionRef { ident: self.ident.clone(), argc: self.argc }
    }
}

#[derive(PartialEq, Debug)]
pub enum Token {
    Value(Num),
    Operator(Operator),
    Function(FunctionRef),
    Identifier(Ident),
    Keyword(Keyword),
}

impl Clone for Token {
    fn clone(&self) -> (r: Self)
        ensures
            r == *self,
    {
        match self {
            Token::Value(n) => Token::Value(*n),
            Token::Operator(op) => Token::Operator(*op),
            Token::Function(f) => Token::Function(f.clone()),
            Token::Identifier(id) => Token::Identifier(id.clone()),
            Token::Keyword(k) => Token::Keyword(*k),
        }
    }
}

/// The shape of one token with strings and numbers taken mathematically:
/// what contracts about the lexer and renderer speak of.
pub ghost enum TokenShape {
    Value(int),
    Operator(Operator),
    Function(Seq<char>, nat),
    Identifier(Seq<char>),
    Keyword(Keyword),
}

impl View for Token {
    type V = TokenShape;

    open spec fn view(&self) -> TokenShape {
        match self {
            Token::Value(n) => TokenShape::Value(n@),
            Token::Operator(op) => TokenShape::Operator(*op),
            Token::Function(f) => TokenShape::Function(f.ident@, f.argc as nat),
            Token::Identifier(id) => TokenShape::Identifier(id@),
            Token::Keyword(k) => TokenShape::Keyword(*k),
        }
    }
}

/// The shapes of a whole token sequence.
pub open spec fn tokens_view(ts: Seq<Token>) -> Seq<TokenShape> {
    ts.map_values(|t: Token| t@)
}

pub proof fn lemma_tokens_view_push(ts: Seq<Token>, t: Token)
    ensures
        tokens_view(ts.push(t)) == tokens_view(ts).push(t@),
{
    assert(tokens_view(ts.push(t)) =~= tokens_view(ts).push(t@));
}

// ---------------------------------------------------------------------------
// Numeric literals
// ---------------------------------------------------------------------------
/// Powers of ten, for the weight of fractional digits.
pub open spec fn spec_pow10(k: nat) -> int
    decreases k,
{
    if k == 0 {
        1
    } else {
        10 * spec_pow10((k - 1) as nat)
    }
}

pub proof fn lemma_pow10_small()
    ensures
        spec_pow10(0) == 1,
        spec_pow10(1) == 10,
        spec_pow10(2) == 100,
        spec_pow10(3) == 1000,
        spec_pow10(4) == 10000,
        spec_pow10(5) == 100000,
        spec_pow10(6) == 1000000,
        spec_pow10(7) == 10000000,
        spec_pow10(8) == 100000000,
{
    assert(spec_pow10(0) == 1);
    assert(spec_pow10(1) == 10);
    assert(spec_pow10(2) == 100);
    assert(spec_pow10(3) == 1000);
    assert(spec_pow10(4) == 10000);
    assert(spec_pow10(5) == 100000);
    assert(spec_pow10(6) == 1000000);
    assert(spec_pow10(7) == 10000000);
    assert(spec_pow10(8) == 100000000);
}

fn pow10_u128(k: u8) -> (r: u128)
    requires
        k <= 8,
    ensures
        r as int == spec_pow10(k as nat),
{
    proof {
        lemma_pow10_small();
    }
    match k {
        0 => 1,
        1 => 10,
        2 => 100,
        3 => 1000,
        4 => 10000,
        5 => 100000,
        6 => 1000000,
        7 => 10000000,
        _ => 100000000,
    }
}

/// The in-progress state of one numeric literal: the accumulated magnitude
/// in billionths, whether a decimal point was seen, how many fractional
/// digits were consumed (further ones are truncated away), and whether any
/// digit arrived at all.
#[derive(PartialEq, Eq, Structural, Debug, Clone, Copy)]
pub struct NumBuf {
    pub mag: u128,
    pub dot: bool,
    pub frac: u8,
    pub any: bool,
}

pub open spec fn empty_numbuf() -> NumBuf {
    NumBuf { mag: 0, dot: false, frac: 0, any: false }
}

/// One digit or decimal point consumed into a pending numeric literal.
pub open spec fn spec_num_step(nb: NumBuf, c: char) -> Result<NumBuf, LexError> {
    if is_digit_char(c) {
        let d = c as int - 48;
        if !nb.dot {
            if nb.mag * 10 + d * SCALE > u128::MAX {
                Err(LexError::NumberTooLarge)
            } else {
                Ok(
                    NumBuf {
                        mag: (nb.mag * 10 + d * SCALE) as u128,
                        dot: nb.dot,
                        frac: nb.frac,
                        any: true,
                    },
                )
            }
        } else if nb.frac < 9 {
            let add = d * spec_pow10((8 - nb.frac) as nat);
            if nb.mag + add > u128::MAX {
                Err(LexError::NumberTooLarge)
            } else {
                Ok(
                    NumBuf {
                        mag: (nb.mag + add) as u128,
                        dot: nb.dot,
                        frac: (nb.frac + 1) as u8,
                        any: true,
                    },
                )
            }
        } else {
            Ok(NumBuf { mag: nb.mag, dot: nb.dot, frac: nb.frac, any: true })
        }
    } else if c == '.' {
        if nb.dot {
            Err(LexError::UnexpectedDot)
        } else {
            Ok(NumBuf { mag: nb.mag, dot: true, frac: nb.frac, any: nb.any })
        }
    } else {
        Ok(nb)
    }
}

fn num_step(nb: NumBuf, c: char) -> (r: Result<NumBuf, LexError>)
    requires
        is_digit_char(c) || c == '.',
    ensures
        r == spec_num_step(nb, c),
{
    proof {
        lemma_pow10_small();
    }
    if char_is_digit(c) {
        let d: u128 = (c as u32 - 48) as u128;
        if !nb.dot {
            match nb.mag.checked_mul(10) {
                Some(m10) => match m10.checked_add(d * SCALE) {
                    Some(m) => Ok(NumBuf { mag: m, dot: nb.dot, frac: nb.frac, any: true }),
                    None => Err(LexError::NumberTooLarge),
                },
                None => Err(LexError::NumberTooLarge),
            }
        } else if nb.frac < 9 {
            let p = pow10_u128(8 - nb.frac);
            assert(d * p <= 900000000) by (nonlinear_arith)
                requires
                    d <= 9,
                    p <= 100000000,
            ;
            let add = d * p;
            match nb.mag.checked_add(add) {
                Some(m) => Ok(
                    NumBuf { mag: m, dot: nb.dot, frac: nb.frac + 1, any: true },
                ),
                None => Err(LexError::NumberTooLarge),
            }
        } else {
            Ok(NumBuf { mag: nb.mag, dot: nb.dot, frac: nb.frac, any: true })
        }
    } else {
        if nb.dot {
            Err(LexError::UnexpectedDot)
        } else {
            Ok(NumBuf { mag: nb.mag, dot: true, frac: nb.frac, any: nb.any })
        }
    }
}

/// The accumulator after the first `n` characters of a numeral word.
pub open spec fn spec_num_prefix(s: Seq<char>, n: int) -> Result<NumBuf, LexError>
    decreases n,
{
    if n <= 0 {
        Ok(empty_numbuf())
    } else {
        match spec_num_prefix(s, n - 1) {
            Ok(nb) => spec_num_step(nb, s[n - 1]),
            Err(e) => Err(e),
        }
    }
}

/// A numeral error reached at some prefix stays for every longer prefix.
pub proof fn lemma_num_prefix_err(s: Seq<char>, k: int, k2: int)
    requires
        spec_num_prefix(s, k) is Err,
        k <= k2,
    ensures
        spec_num_prefix(s, k2) == spec_num_prefix(s, k),
    decreases k2 - k,
{
    if k2 > k {
        lemma_num_prefix_err(s, k, k2 - 1);
    }
}

/// The value of an unsigned numeral word: digits with at most one decimal
/// point, of which at least one digit, held within the representable range.
pub open spec fn spec_numeral_value(s: Seq<char>) -> Option<int> {
    if !(forall|i: int| 0 <= i < s.len() ==> is_digit_char(s[i]) || s[i] == '.') {
        None
    } else {
        match spec_num_prefix(s, s.len() as int) {
            Ok(nb) => if nb.any {
                Some(nb.mag as int)
            } else {
                None
            },
            Err(_) => None,
        }
    }
}

/// The value of a numeral word with an optional leading sign.
pub open spec fn spec_numeral_word_value(s: Seq<char>) -> Option<int> {
    if s.len() > 0 && (s[0] == '-' || s[0] == '+') {
        match spec_numeral_value(s.subrange(1, s.len() as int)) {
            Some(v) => Some(
                if s[0] == '-' {
                    -v
                } else {
                    v
                },
            ),
            None => None,
        }
    } else {
        spec_numeral_value(s)
    }
}

/// Parses a whole word as a numeric literal, `None` when it is not one.
fn parse_numeral_word(text: &str) -> (r: Option<Num>)
    ensures
        match spec_numeral_word_value(text@) {
            Some(v) => r matches Some(n) && n.wf() && n@ == v,
            None => r is None,
        },
{
    let n = text.unicode_len();
    if n == 0 {
        return None;
    }
    let first = text.get_char(0);
    let mut start: usize = 0;
    let mut negative: bool = false;
    if first == '-' {
        start = 1;
        negative = true;
    } else if first == '+' {
        start = 1;
    }
    let ghost body = text@.subrange(start as int, n as int);
    let mut nb = NumBuf { mag: 0, dot: false, frac: 0, any: false };
    let mut i: usize = start;
    while i < n
        invariant
            start <= i <= n,
            n == text@.len(),
            n > 0,
            start == 1 <==> (text@[0] == '-' || text@[0] == '+'),
            start == 0 || start == 1,
            negative == (start == 1 && text@[0] == '-'),
            body == text@.subrange(start as int, n as int),
            forall|j: int|
                start <= j < i ==> is_digit_char(text@[j]) || text@[j] == '.',
            spec_num_prefix(body, i - start) == Ok::<NumBuf, LexError>(nb),
        decreases n - i,
    {
        let c = text.get_char(i);
        proof {
            assert(body[i - start] == text@[i as int]);
        }
        if !(char_is_digit(c) || c == '.') {
            proof {
                assert(!(is_digit_char(body[i - start]) || body[i - start] == '.'));
                assert(spec_numeral_value(body) is None);
                if start == 1 {
                    assert(text@.subrange(1, n as int) =~= body);
                } else {
                    assert(body =~= text@);
                }
            }
            return None;
        }
        match num_step(nb, c) {
            Ok(nb2) => {
                nb = nb2;
            },
            Err(_) => {
                proof {
                    assert(spec_num_prefix(body, i - start + 1) is Err);
                    lemma_num_prefix_err(body, i - start + 1, body.len() as int);
                    assert(spec_numeral_value(body) is None);
                    if start == 1 {
                        assert(text@.subrange(1, n as int) =~= body);
                    } else {
                        assert(body =~= text@);
                    }
                }
                return None;
            },
        }
        i = i + 1;
    }
    if !nb.any {
        proof {
            assert(spec_numeral_value(body) is None);
            if start == 1 {
                assert(text@.subrange(1, n as int) =~= body);
            } else {
                assert(body =~= text@);
            }
        }
        return None;
    }
    let v = Num::from_billionths(nb.mag);
    proof {
        assert(forall|j: int| 0 <= j < body.len() ==> is_digit_char(body[j]) || body[j] == '.');
        assert(spec_numeral_value(body) == Some(nb.mag as int));
        if start == 1 {
            assert(text@.subrange(1, n as int) =~= body);
        } else {
            assert(body =~= text@);
        }
    }
    if negative {
        Some(v.negated())
    } else {
        Some(v)
    }
}

/// What a whole word lexes to: keyword, operator, numeric literal, or
/// identifier, tried in that order.
pub open spec fn spec_token_of_word(s: Seq<char>) -> Option<TokenShape> {
    if spec_keyword_of_word(s) is Some {
        Some(TokenShape::Keyword(spec_keyword_of_word(s)->Some_0))
    } else if spec_op_of_word(s) is Some {
        Some(TokenShape::Operator(spec_op_of_word(s)->Some_0))
    } else if spec_numeral_word_value(s) is Some {
        Some(TokenShape::Value(spec_numeral_word_value(s)->Some_0))
    } else if spec_ident_ok(s) {
        Some(TokenShape::Identifier(s))
    } else {
        None
    }
}

/// Every value token in the sequence holds a well-formed number.
pub open spec fn tokens_wf(toks: Seq<Token>) -> bool {
    forall|i: int|
        0 <= i < toks.len() ==> ((#[trigger] toks[i]) matches Token::Value(n) ==> n.wf())
}

/// Any part of a well-formed token sequence is well formed.
pub proof fn lemma_tokens_wf_subrange(toks: Seq<Token>, a: int, b: int)
    requires
        tokens_wf(toks),
        0 <= a <= b <= toks.len(),
    ensures
        tokens_wf(toks.subrange(a, b)),
{
    assert forall|i: int| 0 <= i < b - a implies ((#[trigger] toks.subrange(a, b)[i])
        matches Token::Value(n) ==> n.wf()) by {
        assert(toks.subrange(a, b)[i] == toks[a + i]);
    }
}

// ---------------------------------------------------------------------------
// The lexer
// ---------------------------------------------------------------------------
/// The lexer's state between characters: the tokens emitted so far, the
/// pending numeric literal if one is open, and the pending identifier word.
/// At most one of the two buffers is ever in use.
pub ghost struct LexState {
    pub toks: Seq<TokenShape>,
    pub num: Option<NumBuf>,
    pub ibuf: Seq<char>,
}

/// Whether a `-` met at this point is unary negation: at the very start, or
/// directly after an operator token other than a closing parenthesis (after
/// a closing parenthesis the expression just ended, so `-` subtracts).
pub open spec fn spec_after_operator(toks: Seq<TokenShape>) -> bool {
    toks.len() == 0 || (toks.last() matches TokenShape::Operator(op) && op != Operator::RParen)
}

/// The numeric buffer opened by the first digit or decimal point.
pub open spec fn spec_start_num(c: char) -> NumBuf {
    if is_digit_char(c) {
        NumBuf { mag: ((c as int - 48) * SCALE) as u128, dot: false, frac: 0, any: true }
    } else {
        NumBuf { mag: 0, dot: true, frac: 0, any: false }
    }
}

/// A character arriving with both buffers free: it opens a buffer, is
/// recognized as an operator, or is skipped as a separator.
pub open spec fn spec_fresh_char(st: LexState, c: char) -> LexState {
    if is_digit_char(c) || c == '.' {
        LexState { toks: st.toks, num: Some(spec_start_num(c)), ibuf: st.ibuf }
    } else if is_alpha_char(c) {
        LexState { toks: st.toks, num: st.num, ibuf: seq![c] }
    } else if c == '-' {
        if spec_after_operator(st.toks) {
            LexState {
                toks: st.toks.push(TokenShape::Operator(Operator::USub)),
                num: st.num,
                ibuf: st.ibuf,
            }
        } else {
            LexState {
                toks: st.toks.push(TokenShape::Operator(Operator::Sub)),
                num: st.num,
                ibuf: st.ibuf,
            }
        }
    } else {
        match spec_op_of_char(c) {
            Some(op) => LexState {
                toks: st.toks.push(TokenShape::Operator(op)),
                num: st.num,
                ibuf: st.ibuf,
            },
            None => st,
        }
    }
}

/// Closing the pending numeric literal: a buffer holding no digit is a
/// malformed literal, any other becomes a value token.
pub open spec fn spec_flush_num(st: LexState) -> Result<LexState, LexError> {
    match st.num {
        Some(nb) => if !nb.any {
            Err(LexError::MalformedNumber)
        } else {
            Ok(
                LexState {
                    toks: st.toks.push(TokenShape::Value(nb.mag as int)),
                    num: None,
                    ibuf: st.ibuf,
                },
            )
        },
        None => Ok(st),
    }
}

/// Closing the pending identifier word: a reserved word becomes a keyword
/// token, anything the identifier shape accepts becomes an identifier.
pub open spec fn spec_flush_ibuf(st: LexState) -> Result<LexState, LexError> {
    if st.ibuf.len() == 0 {
        Ok(st)
    } else if spec_keyword_of_word(st.ibuf) is Some {
        Ok(
            LexState {
                toks: st.toks.push(TokenShape::Keyword(spec_keyword_of_word(st.ibuf)->Some_0)),
                num: st.num,
                ibuf: seq![],
            },
        )
    } else if spec_ident_ok(st.ibuf) {
        Ok(
            LexState {
                toks: st.toks.push(TokenShape::Identifier(st.ibuf)),
                num: st.num,
                ibuf: seq![],
            },
        )
    } else {
        Err(LexError::InvalidIdentifier)
    }
}

/// One character consumed: it extends the open buffer, or closes it and is
/// then handled fresh.
pub open spec fn spec_lex_step(st: LexState, c: char) -> Result<LexState, LexError> {
    if st.num is Some {
        if is_digit_char(c) || c == '.' {
            match spec_num_step(st.num->Some_0, c) {
                Ok(nb) => Ok(LexState { toks: st.toks, num: Some(nb), ibuf: st.ibuf }),
                Err(e) => Err(e),
            }
        } else {
            match spec_flush_num(st) {
                Ok(st2) => Ok(spec_fresh_char(st2, c)),
                Err(e) => Err(e),
            }
        }
    } else if st.ibuf.len() > 0 {
        if is_alpha_char(c) {
            Ok(LexState { toks: st.toks, num: st.num, ibuf: st.ibuf.push(c) })
        } else {
            match spec_flush_ibuf(st) {
                Ok(st2) => Ok(spec_fresh_char(st2, c)),
                Err(e) => Err(e),
            }
        }
    } else {
        Ok(spec_fresh_char(st, c))
    }
}

/// The lexer's state after the first `n` characters.
pub open spec fn spec_lex_prefix(s: Seq<char>, n: int) -> Result<LexState, LexError>
    decreases n,
{
    if n <= 0 {
        Ok(LexState { toks: seq![], num: None, ibuf: seq![] })
    } else {
        match spec_lex_prefix(s, n - 1) {
            Ok(st) => spec_lex_step(st, s[n - 1]),
            Err(e) => Err(e),
        }
    }
}

/// A lexing error reached at some prefix stays for every longer prefix.
pub proof fn lemma_lex_prefix_err(s: Seq<char>, k: int, k2: int)
    requires
        spec_lex_prefix(s, k) is Err,
        k <= k2,
    ensures
        spec_lex_prefix(s, k2) == spec_lex_prefix(s, k),
    decreases k2 - k,
{
    if k2 > k {
        lemma_lex_prefix_err(s, k, k2 - 1);
    }
}

/// What the lexer produces on a whole text: every character consumed, then
/// both buffers flushed.
pub open spec fn spec_tokenize(s: Seq<char>) -> Result<Seq<TokenShape>, LexError> {
    match spec_lex_prefix(s, s.len() as int) {
        Err(e) => Err(e),
        Ok(st) => match spec_flush_num(st) {
            Err(e) => Err(e),
            Ok(st2) => match spec_flush_ibuf(st2) {
                Err(e) => Err(e),
                Ok(st3) => Ok(st3.toks),
            },
        },
    }
}

/// A `-` at a fresh boundary directly after another operator token (not a
/// closing parenthesis), or at the very start of the input, always lexes as
/// unary negation.
pub proof fn lemma_minus_is_negation(st: LexState, c: char)
    requires
        c == '-',
        st.num is None,
        st.ibuf.len() == 0,
        spec_after_operator(st.toks),
    ensures
        spec_lex_step(st, c) == Ok::<LexState, LexError>(
            LexState {
                toks: st.toks.push(TokenShape::Operator(Operator::USub)),
                num: st.num,
                ibuf: st.ibuf,
            },
        ),
{
}

/// A `-` at a fresh boundary anywhere else always lexes as subtraction.
pub proof fn lemma_minus_is_subtraction(st: LexState, c: char)
    requires
        c == '-',
        st.num is None,
        st.ibuf.len() == 0,
        !spec_after_operator(st.toks),
    ensures
        spec_lex_step(st, c) == Ok::<LexState, LexError>(
            LexState {
                toks: st.toks.push(TokenShape::Operator(Operator::Sub)),
                num: st.num,
                ibuf: st.ibuf,
            },
        ),
{
}

/// A sequence stays renderable when a token renderable at its end is
/// appended: the earlier positions see the same prefixes.
proof fn lemma_renderable_push(ts: Seq<Token>, t: Token)
    requires
        renderable_tokens(ts),
        renderable_at(ts.push(t), ts.len() as int),
    ensures
        renderable_tokens(ts.push(t)),
{
    assert forall|m: int| 0 <= m < ts.push(t).len() implies #[trigger] renderable_at(
        ts.push(t),
        m,
    ) by {
        if m < ts.len() {
            assert(renderable_at(ts, m));
            assert(ts.push(t).subrange(0, m) =~= ts.subrange(0, m));
            assert(ts.push(t)[m] == ts[m]);
        }
    }
}

/// Closes the pending numeric literal into a value token.
fn exec_flush_num(toks: &mut Vec<Token>, num: Option<NumBuf>, Ghost(ib): Ghost<Seq<char>>) -> (r:
    Result<Option<NumBuf>, LexError>)
    ensures
        match spec_flush_num(LexState { toks: tokens_view(old(toks)@), num, ibuf: ib }) {
            Ok(st) => r matches Ok(n2) && tokens_view(final(toks)@) == st.toks && n2 == st.num,
            Err(e) => r matches Err(e2) && e2 == e && final(toks)@ == old(toks)@,
        },
        renderable_tokens(old(toks)@) ==> renderable_tokens(final(toks)@),
{
    match num {
        None => Ok(None),
        Some(nb) => {
            if !nb.any {
                Err(LexError::MalformedNumber)
            } else {
                let t = Token::Value(Num::from_billionths(nb.mag));
                proof {
                    lemma_tokens_view_push(toks@, t);
                    if renderable_tokens(toks@) {
                        lemma_renderable_push(toks@, t);
                    }
                }
                toks.push(t);
                Ok(None)
            }
        },
    }
}

/// Closes the pending identifier word into a keyword or identifier token.
fn exec_flush_ibuf(toks: &mut Vec<Token>, ibuf: &mut Vec<char>, num: Option<NumBuf>) -> (r: Result<
    (),
    LexError,
>)
    requires
        forall|j: int| 0 <= j < old(ibuf)@.len() ==> is_alpha_char(#[trigger] old(ibuf)@[j]),
    ensures
        match spec_flush_ibuf(
            LexState { toks: tokens_view(old(toks)@), num, ibuf: old(ibuf)@ },
        ) {
            Ok(st) => r matches Ok(u) && tokens_view(final(toks)@) == st.toks && final(ibuf)@ == st.ibuf,
            Err(e) => r matches Err(e2) && e2 == e && final(toks)@ == old(toks)@ && final(ibuf)@ == old(ibuf)@,
        },
        renderable_tokens(old(toks)@) ==> renderable_tokens(final(toks)@),
{
    if ibuf.len() == 0 {
        return Ok(());
    }
    let w = chars_to_string(ibuf);
    let t = match Keyword::new(w.clone()) {
        Some(kw) => Token::Keyword(kw),
        None => match Ident::new(w) {
            Some(id) => Token::Identifier(id),
            None => {
                return Err(LexError::InvalidIdentifier);
            },
        },
    };
    proof {
        lemma_tokens_view_push(toks@, t);
        if renderable_tokens(toks@) {
            assert(renderable_at(toks@.push(t), toks@.len() as int));
            lemma_renderable_push(toks@, t);
        }
    }
    toks.push(t);
    ibuf.clear();
    Ok(())
}

/// Handles one character met with both buffers free; gives back the numeric
/// buffer it opened, if any.
fn exec_fresh(toks: &mut Vec<Token>, ibuf: &mut Vec<char>, c: char) -> (r: Option<NumBuf>)
    requires
        old(ibuf)@.len() == 0,
    ensures
        ({
            let st1 = spec_fresh_char(
                LexState { toks: tokens_view(old(toks)@), num: None, ibuf: old(ibuf)@ },
                c,
            );
            tokens_view(final(toks)@) == st1.toks && r == st1.num && final(ibuf)@ == st1.ibuf
        }),
        renderable_tokens(old(toks)@) ==> renderable_tokens(final(toks)@),
        forall|j: int| 0 <= j < final(ibuf)@.len() ==> is_alpha_char(#[trigger] final(ibuf)@[j]),
{
    if char_is_digit(c) {
        let d: u128 = (c as u32 - 48) as u128;
        Some(NumBuf { mag: d * SCALE, dot: false, frac: 0, any: true })
    } else if c == '.' {
        Some(NumBuf { mag: 0, dot: true, frac: 0, any: false })
    } else if char_is_alpha(c) {
        ibuf.push(c);
        proof {
            assert(ibuf@ =~= seq![c]);
        }
        None
    } else if c == '-' {
        let unary: bool = if toks.len() == 0 {
            true
        } else {
            match &toks[toks.len() - 1] {
                Token::Operator(op) => match op {
                    Operator::RParen => false,
                    _ => true,
                },
                _ => false,
            }
        };
        proof {
            if toks@.len() > 0 {
                assert(tokens_view(toks@).last() == toks@.last()@);
            }
        }
        let t = Token::Operator(if unary {
            Operator::USub
        } else {
            Operator::Sub
        });
        proof {
            lemma_tokens_view_push(toks@, t);
            assert(unary == spec_after_operator(tokens_view(toks@)));
            if renderable_tokens(toks@) {
                assert(toks@.push(t).subrange(0, toks@.len() as int) =~= toks@);
                assert(renderable_at(toks@.push(t), toks@.len() as int));
                lemma_renderable_push(toks@, t);
            }
        }
        toks.push(t);
        None
    } else {
        match op_of_char(c) {
            Some(op) => {
                let t = Token::Operator(op);
                proof {
                    lemma_tokens_view_push(toks@, t);
                    if renderable_tokens(toks@) {
                        assert(op != Operator::Sub && op != Operator::USub);
                        assert(renderable_at(toks@.push(t), toks@.len() as int));
                        lemma_renderable_push(toks@, t);
                    }
                }
                toks.push(t);
            },
            None => {},
        }
        None
    }
}

/// Turns raw text into tokens by one left-to-right scan, exactly as
/// `spec_tokenize` describes.
pub fn tokenize(s: String) -> (r: Result<Vec<Token>, LexError>)
    ensures
        match spec_tokenize(s@) {
            Ok(shapes) => r matches Ok(v) && tokens_view(v@) == shapes,
            Err(e) => r matches Err(e2) && e2 == e,
        },
        r matches Ok(v) ==> renderable_tokens(v@) && tokens_wf(v@),
{
    let text = s.as_str();
    let n = text.unicode_len();
    let mut toks: Vec<Token> = Vec::new();
    let mut num: Option<NumBuf> = None;
    let mut ibuf: Vec<char> = Vec::new();
    let mut i: usize = 0;
    proof {
        assert(tokens_view(toks@) =~= Seq::<TokenShape>::empty());
        assert(ibuf@ =~= Seq::<char>::empty());
    }
    while i < n
        invariant
            i <= n,
            n == s@.len(),
            text@ == s@,
            num is Some ==> ibuf@.len() == 0,
            spec_lex_prefix(s@, i as int) == Ok::<LexState, LexError>(
                LexState { toks: tokens_view(toks@), num, ibuf: ibuf@ },
            ),
            renderable_tokens(toks@),
            forall|j: int| 0 <= j < ibuf@.len() ==> is_alpha_char(#[trigger] ibuf@[j]),
        decreases n - i,
    {
        let ghost st_old = LexState { toks: tokens_view(toks@), num, ibuf: ibuf@ };
        let c = text.get_char(i);
        match num {
            Some(nb) => {
                if char_is_digit(c) || c == '.' {
                    match num_step(nb, c) {
                        Ok(nb2) => {
                            num = Some(nb2);
                        },
                        Err(e) => {
                            proof {
                                assert(spec_lex_prefix(s@, i + 1) is Err);
                                lemma_lex_prefix_err(s@, i + 1, n as int);
                            }
                            return Err(e);
                        },
                    }
                } else {
                    match exec_flush_num(&mut toks, num, Ghost(ibuf@)) {
                        Ok(_) => {
                            num = exec_fresh(&mut toks, &mut ibuf, c);
                        },
                        Err(e) => {
                            proof {
                                assert(spec_lex_prefix(s@, i + 1) is Err);
                                lemma_lex_prefix_err(s@, i + 1, n as int);
                            }
                            return Err(e);
                        },
                    }
                }
            },
            None => {
                if ibuf.len() > 0 {
                    if char_is_alpha(c) {
                        ibuf.push(c);
                    } else {
                        match exec_flush_ibuf(&mut toks, &mut ibuf, num) {
                            Ok(_) => {
                                num = exec_fresh(&mut toks, &mut ibuf, c);
                            },
                            Err(e) => {
                                proof {
                                    assert(spec_lex_prefix(s@, i + 1) is Err);
                                    lemma_lex_prefix_err(s@, i + 1, n as int);
                                }
                                return Err(e);
                            },
                        }
                    }
                } else {
                    num = exec_fresh(&mut toks, &mut ibuf, c);
                }
            },
        }
        proof {
            assert(spec_lex_prefix(s@, i + 1) == spec_lex_step(st_old, s@[i as int]));
            assert(spec_lex_step(st_old, s@[i as int]) == Ok::<LexState, LexError>(
                LexState { toks: tokens_view(toks@), num, ibuf: ibuf@ },
            ));
        }
        i = i + 1;
    }
    match exec_flush_num(&mut toks, num, Ghost(ibuf@)) {
        Ok(_) => {},
        Err(e) => {
            return Err(e);
        },
    }
    match exec_flush_ibuf(&mut toks, &mut ibuf, None) {
        Ok(_) => {},
        Err(e) => {
            return Err(e);
        },
    }
    proof {
        assert forall|j: int| 0 <= j < toks@.len() implies ((#[trigger] toks@[j])
            matches Token::Value(nv) ==> nv.wf()) by {
            assert(renderable_at(toks@, j));
        }
    }
    Ok(toks)
}

// ---------------------------------------------------------------------------
// Rendering
// ---------------------------------------------------------------------------
/// The character of one decimal digit.
pub open spec fn digit_to_char(d: nat) -> char {
    ((48 + d) as u8) as char
}

/// The decimal digits of a number, most significant first, no leading zero
/// except for zero itself.
pub open spec fn spec_digits_of(n: nat) -> Seq<char>
    decreases n,
{
    if n < 10 {
        seq![digit_to_char(n)]
    } else {
        spec_digits_of(n / 10).push(digit_to_char(n % 10))
    }
}

/// Exactly `w` decimal digits, leading zeros kept.
pub open spec fn spec_digits_fixed(n: nat, w: nat) -> Seq<char>
    decreases w,
{
    if w == 0 {
        Seq::empty()
    } else {
        spec_digits_fixed(n / 10, (w - 1) as nat).push(digit_to_char(n % 10))
    }
}

/// The sequence with its trailing zero characters removed.
pub open spec fn spec_trim_zeros(s: Seq<char>) -> Seq<char>
    decreases s.len(),
{
    if s.len() > 0 && s.last() == '0' {
        spec_trim_zeros(s.drop_last())
    } else {
        s
    }
}

/// The rendered form of a fixed-point value: an optional sign, the integer
/// part, and the fractional digits with trailing zeros trimmed, after a
/// decimal point, when there are any.
pub open spec fn spec_num_word(neg: bool, mag: u128) -> Seq<char> {
    (if neg {
        seq!['-']
    } else {
        Seq::<char>::empty()
    }) + spec_digits_of((mag as nat) / (SCALE as nat)) + (if mag as nat % (SCALE as nat) == 0 {
        Seq::<char>::empty()
    } else {
        seq!['.'] + spec_trim_zeros(spec_digits_fixed(mag as nat % (SCALE as nat), 9))
    })
}

/// The word one token renders to. Unary negation renders as `-`, the same
/// character it was lexed from, so that a rendered token stream lexes back
/// to itself.
pub open spec fn spec_token_word(t: Token) -> Seq<char> {
    match t {
        Token::Value(n) => spec_num_word(n.neg, n.mag),
        Token::Operator(op) => seq![spec_op_char(op)],
        Token::Function(f) => f.ident@,
        Token::Identifier(id) => id@,
        Token::Keyword(Keyword::Function) => "function"@,
        Token::Keyword(Keyword::Variable) => "var"@,
    }
}

/// The words of the first `n` tokens, joined by single spaces.
pub open spec fn spec_render_tokens(ts: Seq<Token>, n: int) -> Seq<char>
    decreases n,
{
    if n <= 0 {
        Seq::empty()
    } else if n == 1 {
        spec_token_word(ts[0])
    } else {
        spec_render_tokens(ts, n - 1) + " "@ + spec_token_word(ts[n - 1])
    }
}

/// The character of one operator.
pub open spec fn spec_op_char(op: Operator) -> char {
    match op {
        Operator::Add => '+',
        Operator::Sub => '-',
        Operator::Mul => '*',
        Operator::Div => '/',
        Operator::USub => '-',
        Operator::Pow => '^',
        Operator::Assign => '=',
        Operator::LParen => '(',
        Operator::RParen => ')',
    }
}

/// Renders the decimal digits of `n`, exactly `spec_digits_of(n)`.
fn push_digits(out: &mut Vec<char>, n: u128)
    ensures
        final(out)@ == old(out)@ + spec_digits_of(n as nat),
{
    let mut ds: Vec<char> = Vec::new();
    let mut m: u128 = n;
    while m >= 10
        invariant
            spec_digits_of(n as nat) == spec_digits_of(m as nat) + ds@,
        decreases m,
    {
        let d: u8 = (m % 10) as u8 + 48;
        ds.insert(0, d as char);
        proof {
            assert(spec_digits_of(m as nat) == spec_digits_of((m as nat) / 10).push(
                digit_to_char((m as nat) % 10),
            ));
            assert(spec_digits_of((m as nat) / 10).push(digit_to_char((m as nat) % 10)) + ds@
                .drop_first() =~= spec_digits_of((m as nat) / 10) + ds@);
        }
        m = m / 10;
    }
    let d: u8 = (m % 10) as u8 + 48;
    ds.insert(0, d as char);
    proof {
        assert(seq![digit_to_char(m as nat)] + ds@.drop_first() =~= ds@);
        assert(spec_digits_of(m as nat) =~= seq![digit_to_char((m as nat) % 10)]);
    }
    let mut i: usize = 0;
    while i < ds.len()
        invariant
            i <= ds@.len(),
            out@ == old(out)@ + ds@.subrange(0, i as int),
            ds@ == spec_digits_of(n as nat),
        decreases ds@.len() - i,
    {
        out.push(ds[i]);
        proof {
            assert(old(out)@ + ds@.subrange(0, i + 1) =~= (old(out)@ + ds@.subrange(0, i as int))
                .push(ds@[i as int]));
        }
        i = i + 1;
    }
    proof {
        assert(ds@.subrange(0, ds@.len() as int) =~= ds@);
    }
}

impl Num {
    /// Renders the value as the lexer's own numeral grammar, exactly as
    /// `spec_num_word` describes.
    pub fn render(&self) -> (r: String)
        ensures
            r@ == spec_num_word(self.neg, self.mag),
    {
        let mut out: Vec<char> = Vec::new();
        if self.neg {
            out.push('-');
        }
        proof {
            if self.neg {
                assert(out@ =~= seq!['-']);
            } else {
                assert(out@ =~= Seq::<char>::empty());
            }
        }
        push_digits(&mut out, self.mag / SCALE);
        let fp: u128 = self.mag % SCALE;
        if fp > 0 {
            out.push('.');
            let mut ds: Vec<char> = Vec::new();
            let mut m: u128 = fp;
            let mut w: usize = 9;
            while w > 0
                invariant
                    w <= 9,
                    spec_digits_fixed(fp as nat, 9) == spec_digits_fixed(m as nat, w as nat)
                        + ds@,
                decreases w,
            {
                let d: u8 = (m % 10) as u8 + 48;
                ds.insert(0, d as char);
                proof {
                    assert(spec_digits_fixed(m as nat, w as nat) == spec_digits_fixed(
                        (m as nat) / 10,
                        (w - 1) as nat,
                    ).push(digit_to_char((m as nat) % 10)));
                    assert(spec_digits_fixed((m as nat) / 10, (w - 1) as nat).push(
                        digit_to_char((m as nat) % 10),
                    ) + ds@.drop_first() =~= spec_digits_fixed((m as nat) / 10, (w - 1) as nat)
                        + ds@);
                }
                m = m / 10;
                w = w - 1;
            }
            proof {
                assert(spec_digits_fixed(m as nat, 0) + ds@ =~= ds@);
            }
            while ds.len() > 0 && ds[ds.len() - 1] == '0'
                invariant
                    spec_trim_zeros(spec_digits_fixed(fp as nat, 9)) == spec_trim_zeros(ds@),
                decreases ds@.len(),
            {
                proof {
                    assert(ds@.drop_last() =~= ds@.subrange(0, ds@.len() - 1));
                }
                let _ = ds.pop();
            }
            let mut i: usize = 0;
            let ghost mid = out@;
            while i < ds.len()
                invariant
                    i <= ds@.len(),
                    out@ == mid + ds@.subrange(0, i as int),
                decreases ds@.len() - i,
            {
                out.push(ds[i]);
                proof {
                    assert(mid + ds@.subrange(0, i + 1) =~= (mid + ds@.subrange(0, i as int))
                        .push(ds@[i as int]));
                }
                i = i + 1;
            }
            proof {
                assert(ds@.subrange(0, ds@.len() as int) =~= ds@);
                assert(ds@ == spec_trim_zeros(spec_digits_fixed(fp as nat, 9)));
                assert(out@ =~= spec_num_word(self.neg, self.mag));
            }
        } else {
            proof {
                assert(out@ + Seq::<char>::empty() =~= out@);
                assert(out@ =~= spec_num_word(self.neg, self.mag));
            }
        }
        chars_to_string(&out)
    }
}

// ---------------------------------------------------------------------------
// Rendering reads back: the word-level round trip
// ---------------------------------------------------------------------------
/// The numeral accumulator run over the characters `s[i..j]` from a given
/// starting state.
pub open spec fn spec_num_run(nb: NumBuf, s: Seq<char>, i: int, j: int) -> Result<NumBuf, LexError>
    decreases j - i,
{
    if j <= i {
        Ok(nb)
    } else {
        match spec_num_run(nb, s, i, j - 1) {
            Ok(x) => spec_num_step(x, s[j - 1]),
            Err(e) => Err(e),
        }
    }
}

/// The whole-word fold is the run from the empty accumulator.
proof fn lemma_num_prefix_is_run(s: Seq<char>, n: int)
    ensures
        spec_num_prefix(s, n) == spec_num_run(empty_numbuf(), s, 0, n),
    decreases n,
{
    if n > 0 {
        lemma_num_prefix_is_run(s, n - 1);
    }
}

/// A run splits at any midpoint.
proof fn lemma_num_run_chain(nb: NumBuf, s: Seq<char>, i: int, m: int, j: int)
    requires
        i <= m <= j,
    ensures
        spec_num_run(nb, s, i, j) == match spec_num_run(nb, s, i, m) {
            Ok(x) => spec_num_run(x, s, m, j),
            Err(e) => Err(e),
        },
    decreases j - m,
{
    if j > m {
        lemma_num_run_chain(nb, s, i, m, j - 1);
    }
}

/// A run reads only the characters between its bounds.
proof fn lemma_num_run_agree(nb: NumBuf, s1: Seq<char>, s2: Seq<char>, i1: int, i2: int, k: int)
    requires
        k >= 0,
        0 <= i1,
        0 <= i2,
        i1 + k <= s1.len(),
        i2 + k <= s2.len(),
        forall|d: int| 0 <= d < k ==> s1[i1 + d] == #[trigger] s2[i2 + d],
    ensures
        spec_num_run(nb, s1, i1, i1 + k) == spec_num_run(nb, s2, i2, i2 + k),
    decreases k,
{
    if k > 0 {
        lemma_num_run_agree(nb, s1, s2, i1, i2, k - 1);
        assert(s1[i1 + (k - 1)] == s2[i2 + (k - 1)]);
    }
}

/// Every rendered digit is a digit character, and at least one is rendered.
proof fn lemma_digits_of_are_digits(n: nat)
    ensures
        spec_digits_of(n).len() >= 1,
        forall|i: int|
            0 <= i < spec_digits_of(n).len() ==> is_digit_char(#[trigger] spec_digits_of(n)[i]),
    decreases n,
{
    if n >= 10 {
        lemma_digits_of_are_digits(n / 10);
    }
}

proof fn lemma_digits_fixed_are_digits(n: nat, w: nat)
    ensures
        spec_digits_fixed(n, w).len() == w,
        forall|i: int|
            0 <= i < w ==> is_digit_char(#[trigger] spec_digits_fixed(n, w)[i]),
    decreases w,
{
    if w > 0 {
        lemma_digits_fixed_are_digits(n / 10, (w - 1) as nat);
    }
}

/// Feeding the rendered digits of `n` into a fresh numeral accumulator
/// yields exactly `n` whole units.
proof fn lemma_run_int_digits(n: nat)
    requires
        n * SCALE <= u128::MAX,
    ensures
        spec_num_run(empty_numbuf(), spec_digits_of(n), 0, spec_digits_of(n).len() as int) == Ok::<
            NumBuf,
            LexError,
        >(NumBuf { mag: (n * SCALE) as u128, dot: false, frac: 0, any: true }),
    decreases n,
{
    lemma_digits_of_are_digits(n);
    vstd::arithmetic::div_mod::lemma_fundamental_div_mod(n as int, 10);
    if n < 10 {
        let ds = spec_digits_of(n);
        assert(spec_num_run(empty_numbuf(), ds, 0, 0) == Ok::<NumBuf, LexError>(empty_numbuf()));
        assert(spec_num_run(empty_numbuf(), ds, 0, 1) == spec_num_step(empty_numbuf(), ds[0]));
    } else {
        let q = n / 10;
        let d = n % 10;
        assert(q * SCALE <= n * SCALE) by (nonlinear_arith)
            requires
                q * 10 + d == n,
                d >= 0,
                SCALE > 0,
                q >= 0,
        ;
        lemma_run_int_digits(q);
        let dsq = spec_digits_of(q);
        let ds = spec_digits_of(n);
        assert(ds == dsq.push(digit_to_char(d)));
        assert(forall|i: int| 0 <= i < dsq.len() ==> ds[i] == dsq[i]);
        lemma_num_run_agree(empty_numbuf(), dsq, ds, 0, 0, dsq.len() as int);
        assert(spec_num_run(empty_numbuf(), ds, 0, ds.len() as int) == spec_num_step(
            NumBuf { mag: (q * SCALE) as u128, dot: false, frac: 0, any: true },
            ds[ds.len() - 1],
        ));
        assert((q * SCALE) * 10 + d * SCALE == n * SCALE) by (nonlinear_arith)
            requires
                q * 10 + d == n,
        ;
    }
}

/// The value of the first `j` fractional digit characters, each weighted by
/// its decimal place.
pub open spec fn frac_partial(s: Seq<char>, j: int) -> int
    decreases j,
{
    if j <= 0 {
        0
    } else {
        frac_partial(s, j - 1) + (s[j - 1] as int - 48) * spec_pow10((9 - j) as nat)
    }
}

proof fn lemma_frac_partial_mono(s: Seq<char>, j: int, k: int)
    requires
        0 <= j <= k <= s.len(),
        forall|i: int| 0 <= i < s.len() ==> is_digit_char(#[trigger] s[i]),
    ensures
        0 <= frac_partial(s, j) <= frac_partial(s, k),
    decreases k,
{
    lemma_pow10_nonneg((9 - k) as nat);
    if k > j {
        lemma_frac_partial_mono(s, j, k - 1);
        assert((s[k - 1] as int - 48) * spec_pow10((9 - k) as nat) >= 0) by (nonlinear_arith)
            requires
                s[k - 1] as int - 48 >= 0,
                spec_pow10((9 - k) as nat) >= 0,
        ;
    } else if k > 0 {
        lemma_frac_partial_mono(s, 0, k - 1);
        assert((s[k - 1] as int - 48) * spec_pow10((9 - k) as nat) >= 0) by (nonlinear_arith)
            requires
                s[k - 1] as int - 48 >= 0,
                spec_pow10((9 - k) as nat) >= 0,
        ;
    }
}

proof fn lemma_pow10_nonneg(k: nat)
    ensures
        spec_pow10(k) >= 1,
    decreases k,
{
    if k > 0 {
        lemma_pow10_nonneg((k - 1) as nat);
    }
}

proof fn lemma_frac_partial_agree(s1: Seq<char>, s2: Seq<char>, j: int)
    requires
        0 <= j <= s1.len(),
        j <= s2.len(),
        forall|i: int| 0 <= i < j ==> s1[i] == s2[i],
    ensures
        frac_partial(s1, j) == frac_partial(s2, j),
    decreases j,
{
    if j > 0 {
        lemma_frac_partial_agree(s1, s2, j - 1);
    }
}

/// Feeding `k` fractional digit characters into an accumulator that just saw
/// the decimal point adds their weighted value.
proof fn lemma_run_frac_digits(ds: Seq<char>, m0: u128, k: int)
    requires
        0 <= k <= ds.len() <= 9,
        forall|i: int| 0 <= i < ds.len() ==> is_digit_char(#[trigger] ds[i]),
        m0 + frac_partial(ds, ds.len() as int) <= u128::MAX,
    ensures
        spec_num_run(NumBuf { mag: m0, dot: true, frac: 0, any: true }, ds, 0, k) == Ok::<
            NumBuf,
            LexError,
        >(
            NumBuf {
                mag: (m0 + frac_partial(ds, k)) as u128,
                dot: true,
                frac: k as u8,
                any: true,
            },
        ),
    decreases k,
{
    lemma_frac_partial_mono(ds, 0, ds.len() as int);
    if k > 0 {
        lemma_run_frac_digits(ds, m0, k - 1);
        lemma_frac_partial_mono(ds, k, ds.len() as int);
        lemma_frac_partial_mono(ds, k - 1, k);
        lemma_pow10_nonneg((9 - k) as nat);
    }
}

/// Exactly `w` fixed-width digits weigh up to the number they render,
/// shifted by the remaining places.
proof fn lemma_frac_fixed_value(n: nat, w: nat)
    requires
        w <= 9,
        n < spec_pow10(w),
    ensures
        frac_partial(spec_digits_fixed(n, w), w as int) == n * spec_pow10((9 - w) as nat),
    decreases w,
{
    lemma_digits_fixed_are_digits(n, w);
    if w == 0 {
        assert(n == 0);
    } else {
        let q = n / 10;
        let d = n % 10;
        vstd::arithmetic::div_mod::lemma_fundamental_div_mod(n as int, 10);
        lemma_pow10_nonneg((w - 1) as nat);
        assert(q < spec_pow10((w - 1) as nat)) by (nonlinear_arith)
            requires
                q * 10 + d == n,
                0 <= d < 10,
                n < 10 * spec_pow10((w - 1) as nat),
                q >= 0,
                spec_pow10((w - 1) as nat) >= 1,
        ;
        lemma_frac_fixed_value(q, (w - 1) as nat);
        let dsq = spec_digits_fixed(q, (w - 1) as nat);
        let ds = spec_digits_fixed(n, w);
        assert(ds == dsq.push(digit_to_char(d)));
        assert(forall|i: int| 0 <= i < dsq.len() ==> ds[i] == dsq[i]);
        lemma_frac_partial_agree(dsq, ds, (w - 1) as int);
        assert(frac_partial(ds, w as int) == frac_partial(ds, w - 1) + d * spec_pow10(
            (9 - w) as nat,
        ));
        assert(spec_pow10((9 - (w - 1)) as nat) == 10 * spec_pow10((9 - w) as nat));
        assert(q * (10 * spec_pow10((9 - w) as nat)) + d * spec_pow10((9 - w) as nat) == n
            * spec_pow10((9 - w) as nat)) by (nonlinear_arith)
            requires
                q * 10 + d == n,
        ;
    }
}

/// Trimming trailing zeros keeps the weighted value, and trims to a prefix.
proof fn lemma_trim_zeros_value(s: Seq<char>)
    requires
        forall|i: int| 0 <= i < s.len() ==> is_digit_char(#[trigger] s[i]),
    ensures
        spec_trim_zeros(s).len() <= s.len(),
        forall|i: int|
            0 <= i < spec_trim_zeros(s).len() ==> #[trigger] spec_trim_zeros(s)[i] == s[i],
        frac_partial(spec_trim_zeros(s), spec_trim_zeros(s).len() as int) == frac_partial(
            s,
            s.len() as int,
        ),
    decreases s.len(),
{
    if s.len() > 0 && s.last() == '0' {
        lemma_trim_zeros_value(s.drop_last());
        lemma_frac_partial_agree(s.drop_last(), s, s.len() - 1);
        assert((s[s.len() - 1] as int - 48) == 0);
    }
}

/// The centerpiece of the numeric round trip: the rendered word of a
/// non-negative value is a numeral of exactly that value.
pub proof fn lemma_num_word_value(mag: u128)
    ensures
        spec_numeral_value(spec_num_word(false, mag)) == Some(mag as int),
{
    let ip = (mag as nat) / (SCALE as nat);
    let fp = (mag as nat) % (SCALE as nat);
    vstd::arithmetic::div_mod::lemma_fundamental_div_mod(mag as int, SCALE as int);
    let ids = spec_digits_of(ip);
    lemma_digits_of_are_digits(ip);
    assert(ip * SCALE <= mag) by (nonlinear_arith)
        requires
            ip * SCALE + fp == mag,
            fp >= 0,
    ;
    lemma_run_int_digits(ip);
    let w = spec_num_word(false, mag);
    if fp == 0 {
        assert(w =~= ids);
        assert(forall|i: int| 0 <= i < w.len() ==> is_digit_char(#[trigger] w[i]) || w[i] == '.');
        lemma_num_prefix_is_run(w, w.len() as int);
        assert(spec_num_prefix(w, w.len() as int) == Ok::<NumBuf, LexError>(
            NumBuf { mag: (ip * SCALE) as u128, dot: false, frac: 0, any: true },
        ));
        assert(ip * SCALE == mag);
    } else {
        let fixed = spec_digits_fixed(fp, 9);
        let tds = spec_trim_zeros(fixed);
        lemma_digits_fixed_are_digits(fp, 9);
        lemma_trim_zeros_value(fixed);
        lemma_pow10_small();
        assert(spec_pow10(9) == 1000000000);
        lemma_frac_fixed_value(fp, 9);
        assert(frac_partial(fixed, 9) == fp * spec_pow10(0));
        assert(frac_partial(tds, tds.len() as int) == fp as int);
        assert(w =~= ids + seq!['.'] + tds);
        assert(forall|i: int| 0 <= i < w.len() ==> is_digit_char(#[trigger] w[i]) || w[i] == '.')
            by {
            assert(forall|i: int| 0 <= i < ids.len() ==> w[i] == ids[i]);
            assert(w[ids.len() as int] == '.');
            assert(forall|i: int|
                ids.len() + 1 <= i < w.len() ==> w[i] == tds[i - (ids.len() + 1)]);
        }
        lemma_num_prefix_is_run(w, w.len() as int);
        let a = ids.len() as int;
        lemma_num_run_chain(empty_numbuf(), w, 0, a, w.len() as int);
        lemma_num_run_agree(empty_numbuf(), ids, w, 0, 0, a);
        let nb1 = NumBuf { mag: (ip * SCALE) as u128, dot: false, frac: 0, any: true };
        assert(spec_num_run(empty_numbuf(), w, 0, a) == Ok::<NumBuf, LexError>(nb1));
        lemma_num_run_chain(nb1, w, a, a + 1, w.len() as int);
        assert(w[a] == '.');
        assert(spec_num_run(nb1, w, a, a) == Ok::<NumBuf, LexError>(nb1));
        assert(spec_num_run(nb1, w, a, a + 1) == spec_num_step(nb1, '.'));
        let nb2 = NumBuf { mag: (ip * SCALE) as u128, dot: true, frac: 0, any: true };
        assert(spec_num_step(nb1, '.') == Ok::<NumBuf, LexError>(nb2));
        let k = tds.len() as int;
        lemma_frac_partial_mono(tds, 0, k);
        lemma_run_frac_digits(tds, nb1.mag, k);
        lemma_num_run_agree(nb2, tds, w, 0, a + 1, k);
        assert(spec_num_run(nb2, w, a + 1, w.len() as int) == Ok::<NumBuf, LexError>(
            NumBuf { mag: mag, dot: true, frac: k as u8, any: true },
        ));
    }
}

/// The word-level round trip: the rendered word of a token reads back to
/// exactly that token. This holds for every token the lexer itself can
/// produce inside a declaration: a non-negative value, an operator other
/// than unary negation (whose word `-` is position-dependent), a keyword,
/// and an identifier made of letters that spells no reserved word. Together
/// with the declaration reconstruction law this is the render round trip,
/// word for word.
pub proof fn lemma_token_word_reads_back(t: Token)
    requires
        match t {
            Token::Value(n) => n.wf() && !n.neg,
            Token::Identifier(id) => id@.len() > 0 && spec_keyword_of_word(id@) is None
                && forall|i: int| 0 <= i < id@.len() ==> is_alpha_char(#[trigger] id@[i]),
            Token::Operator(op) => op != Operator::USub,
            Token::Function(_) => false,
            Token::Keyword(_) => true,
        },
    ensures
        spec_token_of_word(spec_token_word(t)) == Some(t@),
{
    reveal_strlit("function");
    reveal_strlit("var");
    match t {
        Token::Value(n) => {
            let w = spec_num_word(n.neg, n.mag);
            lemma_num_word_value(n.mag);
            lemma_digits_of_are_digits((n.mag as nat) / (SCALE as nat));
            assert(is_digit_char(w[0]));
            assert(w != "function"@);
            assert(w != "var"@);
            if w.len() == 1 {
                assert(spec_op_of_char(w[0]) is None);
            }
        },
        Token::Identifier(id) => {
            let w = id@;
            if w.len() == 1 {
                assert(is_alpha_char(w[0]));
                assert(spec_op_of_char(w[0]) is None);
            }
            assert(is_alpha_char(w[0]));
            assert(!(is_digit_char(w[0]) || w[0] == '.'));
            assert(spec_numeral_value(w) is None);
            assert(spec_numeral_word_value(w) is None);
        },
        Token::Operator(op) => {
            let c = spec_op_char(op);
            let w = seq![c];
            assert(w.len() == 1);
            assert(w != "function"@);
            assert(w != "var"@);
            assert(spec_op_of_char(c) == Some(op));
        },
        Token::Keyword(Keyword::Function) => {
            assert("function"@ == "function"@);
        },
        Token::Keyword(Keyword::Variable) => {
            assert("var"@ != "function"@);
        },
        Token::Function(_) => {
            assert(false);
        },
    }
}

// ---------------------------------------------------------------------------
// The string-level round trip: a rendered token sequence lexes back
// ---------------------------------------------------------------------------
/// The lexer run over the characters `s[i..j]` from a given state.
pub open spec fn spec_lex_run(st: LexState, s: Seq<char>, i: int, j: int) -> Result<
    LexState,
    LexError,
>
    decreases j - i,
{
    if j <= i {
        Ok(st)
    } else {
        match spec_lex_run(st, s, i, j - 1) {
            Ok(x) => spec_lex_step(x, s[j - 1]),
            Err(e) => Err(e),
        }
    }
}

/// A state with both buffers free and the given tokens emitted.
pub open spec fn settled(toks: Seq<TokenShape>) -> LexState {
    LexState { toks, num: None, ibuf: seq![] }
}

proof fn lemma_lex_prefix_is_run(s: Seq<char>, n: int)
    ensures
        spec_lex_prefix(s, n) == spec_lex_run(settled(seq![]), s, 0, n),
    decreases n,
{
    if n > 0 {
        lemma_lex_prefix_is_run(s, n - 1);
    }
}

proof fn lemma_lex_run_chain(st: LexState, s: Seq<char>, i: int, m: int, j: int)
    requires
        i <= m <= j,
    ensures
        spec_lex_run(st, s, i, j) == match spec_lex_run(st, s, i, m) {
            Ok(x) => spec_lex_run(x, s, m, j),
            Err(e) => Err(e),
        },
    decreases j - m,
{
    if j > m {
        lemma_lex_run_chain(st, s, i, m, j - 1);
    }
}

proof fn lemma_lex_run_agree(st: LexState, s1: Seq<char>, s2: Seq<char>, i1: int, i2: int, k: int)
    requires
        k >= 0,
        0 <= i1,
        0 <= i2,
        i1 + k <= s1.len(),
        i2 + k <= s2.len(),
        forall|d: int| 0 <= d < k ==> s1[i1 + d] == #[trigger] s2[i2 + d],
    ensures
        spec_lex_run(st, s1, i1, i1 + k) == spec_lex_run(st, s2, i2, i2 + k),
    decreases k,
{
    if k > 0 {
        lemma_lex_run_agree(st, s1, s2, i1, i2, k - 1);
        assert(s1[i1 + (k - 1)] == s2[i2 + (k - 1)]);
    }
}

/// Whether a token is one the renderer can hand back to the lexer at its
/// position: values are non-negative, identifiers are letter words that
/// spell no reserved word, a subtraction or negation sign sits where the
/// lexer would read it back as such, and function references (which render
/// as bare names) are excluded.
pub open spec fn renderable_at(ts: Seq<Token>, m: int) -> bool {
    match ts[m] {
        Token::Value(n) => n.wf() && !n.neg,
        Token::Identifier(id) => id@.len() > 0 && spec_keyword_of_word(id@) is None && forall|
            i: int,
        | 0 <= i < id@.len() ==> is_alpha_char(#[trigger] id@[i]),
        Token::Operator(op) => if op == Operator::USub {
            spec_after_operator(tokens_view(ts.subrange(0, m)))
        } else if op == Operator::Sub {
            !spec_after_operator(tokens_view(ts.subrange(0, m)))
        } else {
            true
        },
        Token::Function(_) => false,
        Token::Keyword(_) => true,
    }
}

/// Every token of the sequence renders readably at its position.
pub open spec fn renderable_tokens(ts: Seq<Token>) -> bool {
    forall|m: int| 0 <= m < ts.len() ==> #[trigger] renderable_at(ts, m)
}

/// The lexer's state right after the word of token `m`: an operator was
/// emitted at once, a word or numeral still sits in its buffer.
spec fn state_after_word(ts: Seq<Token>, m: int, st: LexState) -> bool {
    match ts[m] {
        Token::Operator(_) => st == settled(tokens_view(ts.subrange(0, m + 1))),
        Token::Value(v) => st.toks == tokens_view(ts.subrange(0, m)) && st.ibuf.len() == 0 && (
        st.num matches Some(nb) && nb.mag == v.mag && nb.any),
        Token::Identifier(_) => st == LexState {
            toks: tokens_view(ts.subrange(0, m)),
            num: None,
            ibuf: spec_token_word(ts[m]),
        },
        Token::Keyword(_) => st == LexState {
            toks: tokens_view(ts.subrange(0, m)),
            num: None,
            ibuf: spec_token_word(ts[m]),
        },
        _ => false,
    }
}

proof fn lemma_tokens_view_take_push(ts: Seq<Token>, m: int)
    requires
        0 <= m < ts.len(),
    ensures
        tokens_view(ts.subrange(0, m + 1)) == tokens_view(ts.subrange(0, m)).push(ts[m]@),
{
    assert(tokens_view(ts.subrange(0, m + 1)) =~= tokens_view(ts.subrange(0, m)).push(ts[m]@));
}

/// The reserved words are nonempty letter words.
proof fn lemma_keyword_words_alpha()
    ensures
        "function"@.len() == 8,
        "var"@.len() == 3,
        forall|i: int| 0 <= i < 8 ==> is_alpha_char(#[trigger] "function"@[i]),
        forall|i: int| 0 <= i < 3 ==> is_alpha_char(#[trigger] "var"@[i]),
{
    reveal_strlit("function");
    reveal_strlit("var");
}

/// The rendered word of a non-negative value holds only numeral characters.
proof fn lemma_num_word_chars(mag: u128)
    ensures
        spec_num_word(false, mag).len() > 0,
        forall|i: int|
            0 <= i < spec_num_word(false, mag).len() ==> is_digit_char(
                #[trigger] spec_num_word(false, mag)[i],
            ) || spec_num_word(false, mag)[i] == '.',
{
    let ip = (mag as nat) / (SCALE as nat);
    let fp = (mag as nat) % (SCALE as nat);
    let ids = spec_digits_of(ip);
    lemma_digits_of_are_digits(ip);
    let w = spec_num_word(false, mag);
    if fp == 0 {
        assert(w =~= ids);
    } else {
        let fixed = spec_digits_fixed(fp, 9);
        let tds = spec_trim_zeros(fixed);
        lemma_digits_fixed_are_digits(fp, 9);
        lemma_trim_zeros_value(fixed);
        assert(w =~= ids + seq!['.'] + tds);
        assert(forall|i: int| 0 <= i < ids.len() ==> w[i] == ids[i]);
        assert(w[ids.len() as int] == '.');
        assert(forall|i: int| ids.len() + 1 <= i < w.len() ==> w[i] == tds[i - (ids.len() + 1)]);
    }
}

/// Running the lexer over one numeral word from a settled state tracks the
/// numeral accumulator exactly.
proof fn lemma_lex_digits(toks: Seq<TokenShape>, s: Seq<char>, i: int, j: int, nb: NumBuf)
    requires
        0 <= i < j <= s.len(),
        forall|m: int| i <= m < j ==> is_digit_char(#[trigger] s[m]) || s[m] == '.',
        spec_num_run(empty_numbuf(), s, i, j) == Ok::<NumBuf, LexError>(nb),
    ensures
        spec_lex_run(settled(toks), s, i, j) == Ok::<LexState, LexError>(
            LexState { toks, num: Some(nb), ibuf: seq![] },
        ),
    decreases j - i,
{
    if j == i + 1 {
        assert(spec_num_run(empty_numbuf(), s, i, j) == spec_num_step(empty_numbuf(), s[i]));
        assert(spec_lex_run(settled(toks), s, i, j) == spec_lex_step(settled(toks), s[i]));
        assert(spec_lex_step(settled(toks), s[i]) == Ok::<LexState, LexError>(
            LexState { toks, num: Some(spec_start_num(s[i])), ibuf: seq![] },
        ));
        assert(Ok::<NumBuf, LexError>(spec_start_num(s[i])) == spec_num_step(
            empty_numbuf(),
            s[i],
        ));
    } else {
        match spec_num_run(empty_numbuf(), s, i, j - 1) {
            Ok(x) => {
                lemma_lex_digits(toks, s, i, j - 1, x);
            },
            Err(_) => {
                assert(false);
            },
        }
    }
}

/// Running the lexer over one letter word from a settled state accumulates
/// the word in the identifier buffer.
proof fn lemma_lex_alpha(toks: Seq<TokenShape>, s: Seq<char>, i: int, j: int)
    requires
        0 <= i < j <= s.len(),
        forall|m: int| i <= m < j ==> is_alpha_char(#[trigger] s[m]),
    ensures
        spec_lex_run(settled(toks), s, i, j) == Ok::<LexState, LexError>(
            LexState { toks, num: None, ibuf: s.subrange(i, j) },
        ),
    decreases j - i,
{
    if j == i + 1 {
        assert(spec_lex_run(settled(toks), s, i, j) == spec_lex_step(settled(toks), s[i]));
        assert(s.subrange(i, j) =~= seq![s[i]]);
    } else {
        lemma_lex_alpha(toks, s, i, j - 1);
        assert(s.subrange(i, j - 1).push(s[j - 1]) =~= s.subrange(i, j));
    }
}

/// A space after a word settles the state: a pending buffer flushes to its
/// token and the space itself is skipped.
proof fn lemma_settle(ts: Seq<Token>, m: int, st: LexState)
    requires
        0 <= m < ts.len(),
        renderable_at(ts, m),
        state_after_word(ts, m, st),
    ensures
        spec_lex_step(st, ' ') == Ok::<LexState, LexError>(
            settled(tokens_view(ts.subrange(0, m + 1))),
        ),
{
    lemma_keyword_words_alpha();
    lemma_tokens_view_take_push(ts, m);
    assert(!is_digit_char(' '));
    assert(!is_alpha_char(' '));
    assert(spec_op_of_char(' ') is None);
    match ts[m] {
        Token::Operator(_) => {},
        Token::Value(v) => {
            assert(st.ibuf =~= Seq::<char>::empty());
        },
        Token::Identifier(id) => {},
        Token::Keyword(Keyword::Function) => {
            assert(spec_keyword_of_word("function"@) == Some(Keyword::Function));
        },
        Token::Keyword(Keyword::Variable) => {
            reveal_strlit("function");
            reveal_strlit("var");
            assert("var"@ != "function"@);
            assert(spec_keyword_of_word("var"@) == Some(Keyword::Variable));
        },
        _ => {
            assert(false);
        },
    }
}

/// Running the lexer over the word of token `m` from the settled state of
/// everything before it reaches exactly the state after that word.
proof fn lemma_lex_word(ts: Seq<Token>, m: int, s: Seq<char>, i: int)
    requires
        0 <= m < ts.len(),
        renderable_tokens(ts),
        0 <= i,
        i + spec_token_word(ts[m]).len() <= s.len(),
        forall|d: int|
            0 <= d < spec_token_word(ts[m]).len() ==> spec_token_word(ts[m])[d] == #[trigger] s[i
                + d],
    ensures
        spec_lex_run(
            settled(tokens_view(ts.subrange(0, m))),
            s,
            i,
            i + spec_token_word(ts[m]).len(),
        ) matches Ok(st) && state_after_word(ts, m, st),
{
    lemma_keyword_words_alpha();
    assert(renderable_at(ts, m));
    let w = spec_token_word(ts[m]);
    let toks = tokens_view(ts.subrange(0, m));
    match ts[m] {
        Token::Value(v) => {
            lemma_num_word_chars(v.mag);
            lemma_num_word_value(v.mag);
            assert forall|mm: int| i <= mm < i + w.len() implies is_digit_char(#[trigger] s[mm])
                || s[mm] == '.' by {
                assert(w[mm - i] == s[i + (mm - i)]);
            }
            let nb = match spec_num_prefix(w, w.len() as int) {
                Ok(nb) => nb,
                Err(_) => arbitrary(),
            };
            assert(nb.any && nb.mag == v.mag);
            lemma_num_prefix_is_run(w, w.len() as int);
            lemma_num_run_agree(empty_numbuf(), w, s, 0, i, w.len() as int);
            lemma_lex_digits(toks, s, i, i + w.len(), nb);
        },
        Token::Identifier(id) => {
            assert forall|mm: int| i <= mm < i + w.len() implies is_alpha_char(
                #[trigger] s[mm],
            ) by {
                assert(w[mm - i] == s[i + (mm - i)]);
            }
            assert forall|d: int| 0 <= d < w.len() implies s.subrange(i, i + w.len())[d]
                == w[d] by {
                assert(w[d] == s[i + d]);
            }
            lemma_lex_alpha(toks, s, i, i + w.len());
            assert(s.subrange(i, i + w.len()) =~= w);
        },
        Token::Keyword(_) => {
            assert forall|mm: int| i <= mm < i + w.len() implies is_alpha_char(
                #[trigger] s[mm],
            ) by {
                assert(w[mm - i] == s[i + (mm - i)]);
            }
            assert forall|d: int| 0 <= d < w.len() implies s.subrange(i, i + w.len())[d]
                == w[d] by {
                assert(w[d] == s[i + d]);
            }
            lemma_lex_alpha(toks, s, i, i + w.len());
            assert(s.subrange(i, i + w.len()) =~= w);
        },
        Token::Operator(op) => {
            assert(w[0] == s[i + 0]);
            assert(spec_lex_run(settled(toks), s, i, i) == Ok::<LexState, LexError>(
                settled(toks),
            ));
            assert(spec_lex_run(settled(toks), s, i, i + 1) == spec_lex_step(settled(toks), s[i]));
            assert(s[i] == spec_op_char(op));
            lemma_tokens_view_take_push(ts, m);
            if op == Operator::USub || op == Operator::Sub {
                assert(spec_op_char(op) == '-');
            } else {
                assert(spec_op_char(op) != '-');
                assert(spec_op_of_char(spec_op_char(op)) == Some(op));
            }
        },
        _ => {
            assert(false);
        },
    }
}

/// The first `n` rendered words, run from the start, land in the state
/// after word `n - 1`.
proof fn lemma_render_run(ts: Seq<Token>, n: int)
    requires
        renderable_tokens(ts),
        1 <= n <= ts.len(),
    ensures
        spec_lex_run(
            settled(seq![]),
            spec_render_tokens(ts, n),
            0,
            spec_render_tokens(ts, n).len() as int,
        ) matches Ok(st) && state_after_word(ts, n - 1, st),
    decreases n,
{
    reveal_strlit(" ");
    let sn = spec_render_tokens(ts, n);
    let w = spec_token_word(ts[n - 1]);
    if n == 1 {
        assert(sn == w);
        assert(tokens_view(ts.subrange(0, 0)) =~= Seq::<TokenShape>::empty());
        assert(settled(seq![]) == settled(tokens_view(ts.subrange(0, 0))));
        lemma_lex_word(ts, 0, sn, 0);
    } else {
        let sp = spec_render_tokens(ts, n - 1);
        lemma_render_run(ts, n - 1);
        assert(sn == sp + " "@ + w);
        assert(" "@.len() == 1 && " "@[0] == ' ');
        assert(sn.len() == sp.len() + 1 + w.len());
        assert(forall|d: int| 0 <= d < sp.len() ==> sp[d] == #[trigger] sn[d]);
        assert(sn[sp.len() as int] == ' ');
        assert(forall|d: int| 0 <= d < w.len() ==> w[d] == #[trigger] sn[sp.len() + 1 + d]);
        let a = sp.len() as int;
        lemma_lex_run_chain(settled(seq![]), sn, 0, a, sn.len() as int);
        lemma_lex_run_agree(settled(seq![]), sp, sn, 0, 0, a);
        let st1 = match spec_lex_run(settled(seq![]), sn, 0, a) {
            Ok(x) => x,
            Err(_) => arbitrary(),
        };
        assert(state_after_word(ts, n - 2, st1));
        lemma_lex_run_chain(st1, sn, a, a + 1, sn.len() as int);
        assert(spec_lex_run(st1, sn, a, a) == Ok::<LexState, LexError>(st1));
        assert(spec_lex_run(st1, sn, a, a + 1) == spec_lex_step(st1, ' '));
        lemma_settle(ts, n - 2, st1);
        let st2 = settled(tokens_view(ts.subrange(0, n - 1)));
        lemma_lex_word(ts, n - 1, sn, a + 1);
    }
}

/// The round trip of a whole rendered token sequence: lexing the words of
/// renderable tokens, joined by single spaces, yields exactly those tokens.
pub proof fn lemma_render_tokens_lex_back(ts: Seq<Token>)
    requires
        ts.len() > 0,
        renderable_tokens(ts),
    ensures
        spec_tokenize(spec_render_tokens(ts, ts.len() as int)) == Ok::<Seq<TokenShape>, LexError>(
            tokens_view(ts),
        ),
{
    lemma_keyword_words_alpha();
    let s = spec_render_tokens(ts, ts.len() as int);
    lemma_render_run(ts, ts.len() as int);
    lemma_lex_prefix_is_run(s, s.len() as int);
    let m = ts.len() - 1;
    let st = match spec_lex_run(settled(seq![]), s, 0, s.len() as int) {
        Ok(x) => x,
        Err(_) => arbitrary(),
    };
    lemma_tokens_view_take_push(ts, m);
    assert(ts.subrange(0, ts.len() as int) =~= ts);
    assert(renderable_at(ts, m));
    match ts[m] {
        Token::Operator(_) => {},
        Token::Value(v) => {},
        Token::Identifier(id) => {},
        Token::Keyword(Keyword::Function) => {
            assert(spec_keyword_of_word("function"@) == Some(Keyword::Function));
        },
        Token::Keyword(Keyword::Variable) => {
            reveal_strlit("function");
            reveal_strlit("var");
            assert("var"@ != "function"@);
            assert(spec_keyword_of_word("var"@) == Some(Keyword::Variable));
        },
        _ => {
            assert(false);
        },
    }
}

impl Token {
    /// Renders the token as the word the lexer would read it back from.
    pub fn render(&self) -> (r: String)
        ensures
            r@ == spec_token_word(*self),
    {
        match self {
            Token::Value(n) => n.render(),
            Token::Operator(op) => {
                let c: char = match op {
                    Operator::Add => '+',
                    Operator::Sub => '-',
                    Operator::Mul => '*',
                    Operator::Div => '/',
                    Operator::USub => '-',
                    Operator::Pow => '^',
                    Operator::Assign => '=',
                    Operator::LParen => '(',
                    Operator::RParen => ')',
                };
                let mut v: Vec<char> = Vec::new();
                v.push(c);
                proof {
                    assert(v@ =~= seq![spec_op_char(*op)]);
                }
                chars_to_string(&v)
            },
            Token::Function(f) => f.ident.internal_cloned(),
            Token::Identifier(id) => id.internal_cloned(),
            Token::Keyword(Keyword::Function) => String::from_str("function"),
            Token::Keyword(Keyword::Variable) => String::from_str("var"),
        }
    }
}

impl Token {
    pub fn new(s: String) -> (r: Option<Token>)
        ensures
            match spec_token_of_word(s@) {
                Some(shape) => r matches Some(t) && t@ == shape,
                None => r is None,
            },
    {
        if let Some(kw) = Keyword::new(s.clone()) {
            return Some(Token::Keyword(kw));
        }
        if let Some(op) = Operator::new(s.clone()) {
            return Some(Token::Operator(op));
        }
        if let Some(n) = parse_numeral_word(s.as_str()) {
            return Some(Token::Value(n));
        }
        match Ident::new(s) {
            Some(id) => Some(Token::Identifier(id)),
            None => None,
        }
    }
}

} // verus!
