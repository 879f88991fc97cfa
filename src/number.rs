//! The numbers that programs compute with.
//!
//! The language's numbers are floating-point values, which the library does
//! not hold itself: the evaluator is written against the `Numeric` trait and
//! verified for every implementation of it, and the host program supplies
//! the number type (the command-line program uses 64-bit floats). The trait's
//! spec function `answer` names what each operation gives, so what is proved
//! is that the evaluator asks the right question of the right operands and
//! uses the answer as the language's rules say. What an implementation is
//! trusted to keep, unchecked: each operation is a function of its operands
//! (it returns what `answer` names), and every numeral of the grammar reads.
use vstd::prelude::*;

verus! {

/// A digit, as a text element.
pub open spec fn is_digit_char(c: char) -> bool {
    '0' <= c && c <= '9'
}

/// `t` is a numeral whose integer part ends at `k`: digits before `k`, and
/// after it either nothing or `.` and at least one digit.
pub open spec fn numeral_split(t: Seq<char>, k: int) -> bool {
    &&& 0 < k <= t.len()
    &&& forall|i: int| 0 <= i < k ==> is_digit_char(#[trigger] t[i])
    &&& (k == t.len() || (k + 1 < t.len() && t[k] == '.' && forall|i: int|
        k < i < t.len() ==> is_digit_char(#[trigger] t[i])))
}

/// A run of digits, optionally followed by `.` and a further run of digits.
pub open spec fn is_number_text(t: Seq<char>) -> bool {
    exists|k: int| numeral_split(t, k)
}

/// A question to the number domain.
pub enum NumberQuery<N> {
    /// The number a numeral denotes.
    Numeral(Seq<char>),
    /// The canonical text of a number.
    Text(N),
    Neg(N),
    Add(N, N),
    Sub(N, N),
    Mul(N, N),
    Div(N, N),
    Greater(N, N),
    GreaterEqual(N, N),
    Less(N, N),
    LessEqual(N, N),
}

/// An answer of the number domain.
pub enum NumberAnswer<N> {
    Number(N),
    Truth(bool),
    Text(Seq<char>),
}

/// A number type for the language. `answer` names what each operation
/// gives; each exec operation returns that answer, so the operations are
/// functions of their operands.
pub trait Numeric: Sized {
    spec fn answer(query: NumberQuery<Self>) -> NumberAnswer<Self>;

    /// Reads a numeral; every numeral of the language's grammar is accepted.
    fn from_numeral(text: &str) -> (r: Self)
        requires
            is_number_text(text@),
        ensures
            Self::answer(NumberQuery::Numeral(text@)) == NumberAnswer::Number(r),
    ;

    fn text(&self) -> (r: String)
        ensures
            Self::answer(NumberQuery::Text(*self)) == NumberAnswer::<Self>::Text(r@),
    ;

    fn duplicate(&self) -> (r: Self)
        ensures
            r == *self,
    ;

    fn neg(&self) -> (r: Self)
        ensures
            Self::answer(NumberQuery::Neg(*self)) == NumberAnswer::Number(r),
    ;

    fn add(&self, other: &Self) -> (r: Self)
        ensures
            Self::answer(NumberQuery::Add(*self, *other)) == NumberAnswer::Number(r),
    ;

    fn sub(&self, other: &Self) -> (r: Self)
        ensures
            Self::answer(NumberQuery::Sub(*self, *other)) == NumberAnswer::Number(r),
    ;

    fn mul(&self, other: &Self) -> (r: Self)
        ensures
            Self::answer(NumberQuery::Mul(*self, *other)) == NumberAnswer::Number(r),
    ;

    fn div(&self, other: &Self) -> (r: Self)
        ensures
            Self::answer(NumberQuery::Div(*self, *other)) == NumberAnswer::Number(r),
    ;

    fn greater(&self, other: &Self) -> (r: bool)
        ensures
            Self::answer(NumberQuery::Greater(*self, *other)) == NumberAnswer::<Self>::Truth(r),
    ;

    fn greater_equal(&self, other: &Self) -> (r: bool)
        ensures
            Self::answer(NumberQuery::GreaterEqual(*self, *other)) == NumberAnswer::<Self>::Truth(r),
    ;

    fn less(&self, other: &Self) -> (r: bool)
        ensures
            Self::answer(NumberQuery::Less(*self, *other)) == NumberAnswer::<Self>::Truth(r),
    ;

    fn less_equal(&self, other: &Self) -> (r: bool)
        ensures
            Self::answer(NumberQuery::LessEqual(*self, *other)) == NumberAnswer::<Self>::Truth(r),
    ;
}

/// The number a numeral denotes.
pub open spec fn numeral_value<N: Numeric>(text: Seq<char>) -> N {
    match N::answer(NumberQuery::Numeral(text)) {
        NumberAnswer::Number(n) => n,
        _ => arbitrary(),
    }
}

/// The number the domain gives for an arithmetic question.
pub open spec fn number_result<N: Numeric>(q: NumberQuery<N>) -> N {
    match N::answer(q) {
        NumberAnswer::Number(n) => n,
        _ => arbitrary(),
    }
}

/// The truth the domain gives for a comparison.
pub open spec fn truth_result<N: Numeric>(q: NumberQuery<N>) -> bool {
    match N::answer(q) {
        NumberAnswer::Truth(b) => b,
        _ => arbitrary(),
    }
}

/// The canonical text of a number.
pub open spec fn number_text<N: Numeric>(n: N) -> Seq<char> {
    match N::answer(NumberQuery::Text(n)) {
        NumberAnswer::Text(t) => t,
        _ => arbitrary(),
    }
}

} // verus!
