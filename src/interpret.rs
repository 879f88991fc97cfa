//! Value rules shared by the evaluator, and the program runner.
use crate::environment::Environment;
use crate::expression::{eval, ErrorModel, Expression, RuntimeError};
use crate::number::Numeric;
use crate::statement::{done, exec_list, lemma_exec_list_stops, Statement};
use crate::scan::texts;
use crate::token::{type_of, value_text, LiteralModel, LiteralValue};
use vstd::prelude::*;
use vstd::string::*;

verus! {

/// Truthiness: `nil` and `false` are falsy, every other value is truthy.
pub open spec fn truthy<N>(v: LiteralModel<N>) -> bool {
    match v {
        LiteralModel::Nil => false,
        LiteralModel::Boolean(b) => b,
        _ => true,
    }
}

/// Equality: the same tag and the same canonical printed form.
pub open spec fn values_equal<N: Numeric>(x: LiteralModel<N>, y: LiteralModel<N>) -> bool {
    type_of(x) == type_of(y) && value_text(x) == value_text(y)
}

/// The parts, each preceded by a space.
pub open spec fn spaced(parts: Seq<Seq<char>>) -> Seq<char>
    decreases parts.len(),
{
    if parts.len() == 0 {
        Seq::empty()
    } else {
        spaced(parts.drop_last()) + " "@ + parts.last()
    }
}

/// `(name part part ...)`.
pub open spec fn paren_text(name: Seq<char>, parts: Seq<Seq<char>>) -> Seq<char> {
    "("@ + name + spaced(parts) + ")"@
}

pub fn is_truthy<N: Numeric>(value: &LiteralValue<N>) -> (r: bool)
    ensures
        r == truthy(value@),
{
    match value {
        LiteralValue::Nil(_) => false,
        LiteralValue::Boolean(b) => b.value,
        _ => true,
    }
}

/// Whether two values are equal: values of different tags never are, and
/// values of one tag are equal when they print the same.
pub fn is_equal<N: Numeric>(left: &LiteralValue<N>, right: &LiteralValue<N>) -> (r: bool)
    ensures
        r == values_equal(left@, right@),
{
    if left.get_type() != right.get_type() {
        return false;
    }
    left.print_value() == right.print_value()
}

/// Wraps rendered operands in parentheses after a head word.
pub fn parenthesize(name: &str, parts: Vec<String>) -> (r: String)
    ensures
        r@ == paren_text(name@, texts(parts@)),
{
    let ghost ps = texts(parts@);
    let mut out = String::from_str("(");
    out.append(name);
    let mut i: usize = 0;
    assert(ps.subrange(0, 0) =~= Seq::<Seq<char>>::empty());
    while i < parts.len()
        invariant
            i <= parts@.len(),
            ps == texts(parts@),
            out@ == "("@ + name@ + spaced(ps.subrange(0, i as int)),
        decreases parts.len() - i,
    {
        out.append(" ");
        out.append(parts[i].as_str());
        assert(ps.subrange(0, i + 1).drop_last() =~= ps.subrange(0, i as int));
        i = i + 1;
    }
    assert(ps.subrange(0, i as int) =~= ps);
    out.append(")");
    out
}

/// Runs a program: its statements in order against one global environment,
/// collecting the lines that print statements write.
pub struct Interpreter<N> {
    pub statements: Vec<Statement<N>>,
    pub environment: Environment<N>,
    /// The lines printed so far, in order.
    pub output: Vec<String>,
}

impl<N: Numeric> Interpreter<N> {
    pub fn new(statements: Vec<Statement<N>>) -> (r: Self)
        ensures
            r.statements == statements,
            r.environment.wf(),
            r.environment@ == seq![Seq::<(Seq<char>, Option<LiteralModel<N>>)>::empty()],
            r.output@.len() == 0,
    {
        Interpreter { statements, environment: Environment::new(None), output: Vec::new() }
    }

    /// Executes the statements in order; the first runtime error aborts the
    /// rest and is returned.
    pub fn interpret(&mut self) -> (r: Result<(), RuntimeError<N>>)
        requires
            old(self).environment.wf(),
        ensures
            final(self).environment.wf(),
            final(self).statements == old(self).statements,
            (done(r), (final(self).environment@, texts(final(self).output@))) == exec_list(
                old(self).statements@,
                (old(self).environment@, texts(old(self).output@)),
            ),
    {
        let ghost start = (self.environment@, texts(self.output@));
        let mut i: usize = 0;
        assert(self.statements@.subrange(0, 0) =~= Seq::<Statement<N>>::empty());
        while i < self.statements.len()
            invariant
                i <= self.statements@.len(),
                self.statements == old(self).statements,
                self.environment.wf(),
                start == (old(self).environment@, texts(old(self).output@)),
                exec_list(self.statements@.subrange(0, i as int), start) == (Ok::<(), ErrorModel<N>>(()), (self.environment@, texts(self.output@))),
            decreases self.statements.len() - i,
        {
            let r = self.statements[i].evaluate(&mut self.environment, &mut self.output);
            assert(self.statements@.subrange(0, i + 1).drop_last() =~= self.statements@.subrange(0, i as int));
            match r {
                Ok(_) => {},
                Err(e) => {
                    proof {
                        assert(self.statements@.subrange(0, i + 1).last() == self.statements@[i as int]);
                        lemma_exec_list_stops(self.statements@, i + 1, start);
                    }
                    return Err(e);
                },
            }
            i = i + 1;
        }
        assert(self.statements@.subrange(0, i as int) =~= self.statements@);
        Ok(())
    }
}

/// Evaluates one expression against an environment and gives the canonical
/// text of its value, or `None` when the value is absent.
pub fn interpret_single_expr<N: Numeric>(expr: &Expression<N>, environment: &mut Environment<N>) -> (r: Result<Option<String>, RuntimeError<N>>)
    requires
        old(environment).wf(),
    ensures
        final(environment).wf(),
        final(environment)@ == eval(*expr, old(environment)@).1,
        match (r, eval(*expr, old(environment)@).0) {
            (Ok(Some(t)), Ok(Some(v))) => t@ == value_text(v),
            (Ok(None), Ok(None)) => true,
            (Err(e), Err(m)) => e@ == m,
            _ => false,
        },
{
    match expr.evaluate(environment) {
        Ok(Some(v)) => Ok(Some(v.print_value())),
        Ok(None) => Ok(None),
        Err(e) => Err(e),
    }
}

/// Truthiness: `nil` and `false` are falsy; `true`, every number (zero
/// included) and every string (the empty one included) are truthy.
pub proof fn lemma_truthiness<N>(n: N, s: Seq<char>)
    ensures
        !truthy(LiteralModel::<N>::Nil),
        !truthy(LiteralModel::<N>::Boolean(false)),
        truthy(LiteralModel::<N>::Boolean(true)),
        truthy(LiteralModel::Number(n)),
        truthy(LiteralModel::<N>::Str(s)),
{
}

} // verus!
