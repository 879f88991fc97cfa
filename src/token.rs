//! Tokens and the literal values they and the evaluator carry.
use crate::number::{number_text, Numeric};
use crate::{kind_name, TokenType};
use vstd::prelude::*;
use vstd::string::*;

verus! {

/// The tag of a runtime value.
#[derive(Debug, Clone, Copy, PartialEq, Eq, Structural)]
pub enum LiteralType {
    NumberLiteral,
    StringLiteral,
    BooleanLiteral,
    NilLiteral,
}

pub struct NumberLiteral<N> {
    pub value: N,
}

pub struct StringLiteral {
    pub value: String,
}

pub struct BooleanLiteral {
    pub value: bool,
}

pub struct NilLiteral;

/// A runtime value: exactly one payload per instance.
pub enum LiteralValue<N> {
    Number(NumberLiteral<N>),
    String(StringLiteral),
    Boolean(BooleanLiteral),
    Nil(NilLiteral),
}

/// What a runtime value is, mathematically.
pub enum LiteralModel<N> {
    Number(N),
    Str(Seq<char>),
    Boolean(bool),
    Nil,
}

impl<N> View for LiteralValue<N> {
    type V = LiteralModel<N>;

    open spec fn view(&self) -> LiteralModel<N> {
        match self {
            LiteralValue::Number(n) => LiteralModel::Number(n.value),
            LiteralValue::String(s) => LiteralModel::Str(s.value@),
            LiteralValue::Boolean(b) => LiteralModel::Boolean(b.value),
            LiteralValue::Nil(_) => LiteralModel::Nil,
        }
    }
}

/// The model of an optional value (an absent value is an uninitialised variable).
pub open spec fn opt_model<N>(v: Option<LiteralValue<N>>) -> Option<LiteralModel<N>> {
    match v {
        Some(x) => Some(x@),
        None => None,
    }
}

/// The tag of a value.
pub open spec fn type_of<N>(v: LiteralModel<N>) -> LiteralType {
    match v {
        LiteralModel::Number(_) => LiteralType::NumberLiteral,
        LiteralModel::Str(_) => LiteralType::StringLiteral,
        LiteralModel::Boolean(_) => LiteralType::BooleanLiteral,
        LiteralModel::Nil => LiteralType::NilLiteral,
    }
}

/// The canonical printed form of a value.
pub open spec fn value_text<N: Numeric>(v: LiteralModel<N>) -> Seq<char> {
    match v {
        LiteralModel::Number(n) => number_text(n),
        LiteralModel::Str(s) => s,
        LiteralModel::Boolean(b) => if b {
            "true"@
        } else {
            "false"@
        },
        LiteralModel::Nil => "nil"@,
    }
}

impl<N: Numeric> LiteralValue<N> {
    pub fn duplicate(&self) -> (r: Self)
        ensures
            r == *self,
    {
        match self {
            LiteralValue::Number(n) => LiteralValue::Number(NumberLiteral { value: n.value.duplicate() }),
            LiteralValue::String(s) => LiteralValue::String(StringLiteral { value: s.value.clone() }),
            LiteralValue::Boolean(b) => LiteralValue::Boolean(BooleanLiteral { value: b.value }),
            LiteralValue::Nil(_) => LiteralValue::Nil(NilLiteral),
        }
    }

    /// The canonical printed form of this value.
    pub fn print_value(&self) -> (r: String)
        ensures
            r@ == value_text(self@),
    {
        match self {
            LiteralValue::Number(n) => n.value.text(),
            LiteralValue::String(s) => s.value.clone(),
            LiteralValue::Boolean(b) => if b.value {
                String::from_str("true")
            } else {
                String::from_str("false")
            },
            LiteralValue::Nil(_) => String::from_str("nil"),
        }
    }

    pub fn get_type(&self) -> (r: LiteralType)
        ensures
            r == type_of(self@),
    {
        match self {
            LiteralValue::Number(_) => LiteralType::NumberLiteral,
            LiteralValue::String(_) => LiteralType::StringLiteral,
            LiteralValue::Boolean(_) => LiteralType::BooleanLiteral,
            LiteralValue::Nil(_) => LiteralType::NilLiteral,
        }
    }
}

/// Copies an optional value.
pub fn duplicate_opt<N: Numeric>(v: &Option<LiteralValue<N>>) -> (r: Option<LiteralValue<N>>)
    ensures
        r == *v,
{
    match v {
        Some(x) => Some(x.duplicate()),
        None => None,
    }
}

/// The lexer's output unit.
pub struct Token<N> {
    pub token_type: TokenType,
    /// The exact source text the token was read from.
    pub lexeme: String,
    pub literal: Option<LiteralValue<N>>,
    /// The 1-based source line.
    pub line: usize,
}

/// What a token is, mathematically.
pub struct TokenModel<N> {
    pub token_type: TokenType,
    pub lexeme: Seq<char>,
    pub literal: Option<LiteralModel<N>>,
    pub line: int,
}

impl<N> View for Token<N> {
    type V = TokenModel<N>;

    open spec fn view(&self) -> TokenModel<N> {
        TokenModel {
            token_type: self.token_type,
            lexeme: self.lexeme@,
            literal: opt_model(self.literal),
            line: self.line as int,
        }
    }
}

/// The printed form of a token: its kind, its lexeme, and its literal or `null`.
pub open spec fn token_text<N: Numeric>(t: TokenModel<N>) -> Seq<char> {
    kind_name(t.token_type) + " "@ + t.lexeme + " "@ + match t.literal {
        Some(v) => value_text(v),
        None => "null"@,
    }
}

impl<N: Numeric> Token<N> {
    pub fn new(token_type: TokenType, lexeme: String, literal: Option<LiteralValue<N>>, line: usize) -> (r: Self)
        ensures
            r == (Token { token_type, lexeme, literal, line }),
    {
        Token { token_type, lexeme, literal, line }
    }

    pub fn duplicate(&self) -> (r: Self)
        ensures
            r == *self,
    {
        Token {
            token_type: self.token_type,
            lexeme: self.lexeme.clone(),
            literal: duplicate_opt(&self.literal),
            line: self.line,
        }
    }

    /// The printed form of the token, as the tokenizer lists it.
    pub fn to_string(&self) -> (r: String)
        ensures
            r@ == token_text(self@),
    {
        let mut out = self.token_type.name();
        out.append(" ");
        out.append(self.lexeme.as_str());
        out.append(" ");
        let lit = match &self.literal {
            Some(v) => v.print_value(),
            None => String::from_str("null"),
        };
        out.append(lit.as_str());
        out
    }
}

/// The decimal digits of a number.
pub open spec fn decimal(n: nat) -> Seq<char>
    decreases n,
{
    if n < 10 {
        seq![digit_char(n)]
    } else {
        decimal(n / 10) + seq![digit_char(n % 10)]
    }
}

pub open spec fn digit_char(d: nat) -> char {
    if d == 0 { '0' } else if d == 1 { '1' } else if d == 2 { '2' } else if d == 3 { '3' } else if d == 4 {
        '4'
    } else if d == 5 { '5' } else if d == 6 { '6' } else if d == 7 { '7' } else if d == 8 { '8' } else { '9' }
}

fn digit(d: usize) -> (r: &'static str)
    requires
        d < 10,
    ensures
        r@ == seq![digit_char(d as nat)],
{
    if d == 0 {
        proof {
            reveal_strlit("0");
        }
        return "0";
    }
    if d == 1 {
        proof {
            reveal_strlit("1");
        }
        return "1";
    }
    if d == 2 {
        proof {
            reveal_strlit("2");
        }
        return "2";
    }
    if d == 3 {
        proof {
            reveal_strlit("3");
        }
        return "3";
    }
    if d == 4 {
        proof {
            reveal_strlit("4");
        }
        return "4";
    }
    if d == 5 {
        proof {
            reveal_strlit("5");
        }
        return "5";
    }
    if d == 6 {
        proof {
            reveal_strlit("6");
        }
        return "6";
    }
    if d == 7 {
        proof {
            reveal_strlit("7");
        }
        return "7";
    }
    if d == 8 {
        proof {
            reveal_strlit("8");
        }
        return "8";
    }
    proof {
        reveal_strlit("9");
    }
    "9"
}

/// A line number in decimal.
pub fn decimal_text(n: usize) -> (r: String)
    ensures
        r@ == decimal(n as nat),
{
    let mut digits: Vec<usize> = Vec::new();
    let mut m = n;
    while m >= 10
        invariant
            decimal(n as nat) == decimal(m as nat) + digits@.reverse().map_values(|d: usize| digit_char(d as nat)),
            forall|k: int| 0 <= k < digits@.len() ==> digits@[k] < 10,
        decreases m,
    {
        let ghost before = digits@;
        digits.push(m % 10);
        assert(digits@.reverse().map_values(|d: usize| digit_char(d as nat)) =~= seq![digit_char((m % 10) as nat)]
            + before.reverse().map_values(|d: usize| digit_char(d as nat)));
        m = m / 10;
    }
    let ghost before = digits@;
    digits.push(m);
    let ghost all = digits@.reverse().map_values(|d: usize| digit_char(d as nat));
    assert(all =~= seq![digit_char(m as nat)] + before.reverse().map_values(|d: usize| digit_char(d as nat)));
    assert(decimal(n as nat) == all);
    let mut out = String::new();
    let mut i = digits.len();
    while i > 0
        invariant
            i <= digits@.len(),
            all == digits@.reverse().map_values(|d: usize| digit_char(d as nat)),
            forall|k: int| 0 <= k < digits@.len() ==> digits@[k] < 10,
            out@ == all.subrange(0, digits@.len() - i),
        decreases i,
    {
        i = i - 1;
        out.append(digit(digits[i]));
        assert(out@ =~= all.subrange(0, digits@.len() - i));
    }
    assert(out@ =~= all);
    out
}

} // verus!
