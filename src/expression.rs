//! Expressions: their canonical rendering and their evaluation.
use crate::environment::{assign_in, keeps_bindings_of, lemma_assign_keeps_other, lemma_keeps_refl, lemma_keeps_trans, lemma_assign_keeps_names, lookup, same_names, undefined_error, Environment, ScopeModel};
use crate::interpret::{is_equal, is_truthy, parenthesize, paren_text, truthy, values_equal};
use crate::scan::texts;
use crate::number::{number_result, truth_result, NumberQuery, Numeric};
use crate::token::{
    decimal, decimal_text, duplicate_opt, opt_model, type_of, value_text, BooleanLiteral, LiteralModel, LiteralValue,
    NilLiteral, NumberLiteral, StringLiteral, Token, TokenModel,
};
use crate::TokenType;
use vstd::prelude::*;
use vstd::string::*;

verus! {

/// An error raised while a program runs: the token it concerns (whose line
/// is reported) and its message.
pub struct RuntimeError<N> {
    pub token: Token<N>,
    pub message: String,
}

impl<N> RuntimeError<N> {
    /// The report: the message, then `[line N]` on a line of its own.
    pub fn report(&self) -> (r: String)
        ensures
            r@ == self.message@ + "\n[line "@ + decimal(self.token.line as nat) + "]"@,
    {
        let mut out = self.message.clone();
        out.append("\n[line ");
        out.append(decimal_text(self.token.line).as_str());
        out.append("]");
        out
    }
}

/// What a runtime error is, mathematically.
pub struct ErrorModel<N> {
    pub token: TokenModel<N>,
    pub message: Seq<char>,
}

impl<N> View for RuntimeError<N> {
    type V = ErrorModel<N>;

    open spec fn view(&self) -> ErrorModel<N> {
        ErrorModel { token: self.token@, message: self.message@ }
    }
}

/// The kind of an expression node.
#[derive(Debug, Clone, Copy, PartialEq, Eq, Structural)]
pub enum ExpressionType {
    Assign,
    Binary,
    Grouping,
    Literal,
    Unary,
    Variable,
}

/// An expression tree; each node owns its children.
pub enum Expression<N> {
    Assign(AssignExpr<N>),
    Binary(BinaryExpr<N>),
    Grouping(GroupingExpr<N>),
    Literal(LiteralExpr<N>),
    Unary(UnaryExpr<N>),
    Variable(VariableExpr<N>),
}

/// `name = value`.
pub struct AssignExpr<N> {
    pub name: Token<N>,
    pub value: Box<Expression<N>>,
}

pub struct BinaryExpr<N> {
    pub left: Box<Expression<N>>,
    pub operator: Token<N>,
    pub right: Box<Expression<N>>,
}

/// A parenthesised expression.
pub struct GroupingExpr<N> {
    pub expression: Box<Expression<N>>,
}

pub struct LiteralExpr<N> {
    pub value: LiteralValue<N>,
}

pub struct UnaryExpr<N> {
    pub operator: Token<N>,
    pub right: Box<Expression<N>>,
}

/// A reference to a variable.
pub struct VariableExpr<N> {
    pub name: Token<N>,
}

impl<N: Numeric> AssignExpr<N> {
    pub fn new(name: Token<N>, value: Box<Expression<N>>) -> (r: Self)
        ensures
            r == (AssignExpr { name, value }),
    {
        AssignExpr { name, value }
    }
}

impl<N: Numeric> BinaryExpr<N> {
    pub fn new(left: Box<Expression<N>>, operator: Token<N>, right: Box<Expression<N>>) -> (r: Self)
        ensures
            r == (BinaryExpr { left, operator, right }),
    {
        BinaryExpr { left, operator, right }
    }
}

impl<N: Numeric> GroupingExpr<N> {
    pub fn new(expression: Box<Expression<N>>) -> (r: Self)
        ensures
            r == (GroupingExpr { expression }),
    {
        GroupingExpr { expression }
    }
}

impl<N: Numeric> LiteralExpr<N> {
    pub fn new(value: LiteralValue<N>) -> (r: Self)
        ensures
            r == (LiteralExpr { value }),
    {
        LiteralExpr { value }
    }
}

impl<N: Numeric> UnaryExpr<N> {
    pub fn new(operator: Token<N>, right: Box<Expression<N>>) -> (r: Self)
        ensures
            r == (UnaryExpr { operator, right }),
    {
        UnaryExpr { operator, right }
    }
}

impl<N: Numeric> VariableExpr<N> {
    pub fn new(name: Token<N>) -> (r: Self)
        ensures
            r == (VariableExpr { name }),
    {
        VariableExpr { name }
    }
}

/// The canonical rendering: fully parenthesised, the operator (or `group`)
/// first, operands rendered recursively and separated by spaces.
pub open spec fn render<N: Numeric>(e: Expression<N>) -> Seq<char>
    decreases e,
{
    match e {
        Expression::Assign(a) => a.name.lexeme@ + " = "@ + render(*a.value),
        Expression::Binary(b) => paren_text(b.operator.lexeme@, seq![render(*b.left), render(*b.right)]),
        Expression::Grouping(g) => paren_text("group"@, seq![render(*g.expression)]),
        Expression::Literal(l) => value_text(l.value@),
        Expression::Unary(u) => paren_text(u.operator.lexeme@, seq![render(*u.right)]),
        Expression::Variable(v) => v.name.lexeme@,
    }
}

/// A runtime error raised at `token`.
pub open spec fn error_at<N>(token: TokenModel<N>, message: Seq<char>) -> ErrorModel<N> {
    ErrorModel { token, message }
}

/// What a unary operator makes of its operand's value.
pub open spec fn unary_value<N: Numeric>(op: TokenModel<N>, v: LiteralModel<N>) -> Result<LiteralModel<N>, ErrorModel<N>> {
    if op.token_type == TokenType::Bang {
        Ok(LiteralModel::Boolean(!truthy(v)))
    } else if op.token_type == TokenType::Minus && v is Number {
        Ok(LiteralModel::Number(number_result(NumberQuery::Neg(v->Number_0))))
    } else {
        Err(error_at(op, "Operand must be a number."@))
    }
}

/// Operators that take two numbers only.
pub open spec fn numeric_operator(t: TokenType) -> bool {
    t == TokenType::Minus || t == TokenType::Slash || t == TokenType::Star || t == TokenType::Greater
        || t == TokenType::GreaterEqual || t == TokenType::Less || t == TokenType::LessEqual
}

/// Comparison operators: they give a Boolean; the other numeric operators
/// give a number.
pub open spec fn comparison_operator(t: TokenType) -> bool {
    t == TokenType::Greater || t == TokenType::GreaterEqual || t == TokenType::Less || t == TokenType::LessEqual
}

/// What a binary operator makes of two numbers.
pub open spec fn number_operation<N: Numeric>(t: TokenType, a: N, b: N) -> LiteralModel<N> {
    if comparison_operator(t) {
        LiteralModel::Boolean(truth_result(number_query(t, a, b)))
    } else {
        LiteralModel::Number(number_result(number_query(t, a, b)))
    }
}

/// The question a binary operator asks of two numbers.
pub open spec fn number_query<N>(t: TokenType, a: N, b: N) -> NumberQuery<N> {
    match t {
        TokenType::Minus => NumberQuery::Sub(a, b),
        TokenType::Slash => NumberQuery::Div(a, b),
        TokenType::Star => NumberQuery::Mul(a, b),
        TokenType::Plus => NumberQuery::Add(a, b),
        TokenType::Greater => NumberQuery::Greater(a, b),
        TokenType::GreaterEqual => NumberQuery::GreaterEqual(a, b),
        TokenType::Less => NumberQuery::Less(a, b),
        _ => NumberQuery::LessEqual(a, b),
    }
}

/// What a binary operator makes of its operands' values. Equality never
/// fails; the other operators need numbers, and `+` also joins two strings.
pub open spec fn binary_value<N: Numeric>(op: TokenModel<N>, x: LiteralModel<N>, y: LiteralModel<N>) -> Result<LiteralModel<N>, ErrorModel<N>> {
    let t = op.token_type;
    if t == TokenType::BangEqual {
        Ok(LiteralModel::Boolean(!values_equal(x, y)))
    } else if t == TokenType::EqualEqual {
        Ok(LiteralModel::Boolean(values_equal(x, y)))
    } else if numeric_operator(t) || t == TokenType::Plus {
        if x is Number && y is Number {
            Ok(number_operation(t, x->Number_0, y->Number_0))
        } else if t == TokenType::Plus && x is Str && y is Str {
            Ok(LiteralModel::Str(x->Str_0 + y->Str_0))
        } else if t == TokenType::Plus {
            Err(error_at(op, "Operands must be numbers or strings."@))
        } else {
            Err(error_at(op, "Operands must be numbers."@))
        }
    } else {
        Err(error_at(op, "Operands must be numbers or strings."@))
    }
}

/// An operand's value; an absent value (an uninitialised variable) is `nil`.
pub open spec fn or_nil<N>(v: Option<LiteralModel<N>>) -> LiteralModel<N> {
    match v {
        Some(x) => x,
        None => LiteralModel::Nil,
    }
}

/// An operand's value; an absent value is `nil`.
pub fn value_or_nil<N: Numeric>(v: Option<LiteralValue<N>>) -> (r: LiteralValue<N>)
    ensures
        r@ == or_nil(opt_model(v)),
{
    match v {
        Some(x) => x,
        None => LiteralValue::Nil(NilLiteral),
    }
}

/// The outcome of evaluating an expression: a value (absent for an
/// uninitialised variable) or an error.
pub type Outcome<N> = Result<Option<LiteralModel<N>>, ErrorModel<N>>;

/// Evaluation: the outcome and the scopes after it (assignment changes them).
/// Operands are evaluated left to right, and the first error ends the evaluation.
pub open spec fn eval<N: Numeric>(e: Expression<N>, env: Seq<ScopeModel<N>>) -> (Outcome<N>, Seq<ScopeModel<N>>)
    decreases e,
{
    match e {
        Expression::Literal(l) => (Ok(Some(l.value@)), env),
        Expression::Grouping(g) => eval(*g.expression, env),
        Expression::Variable(v) => match lookup(env, v.name.lexeme@) {
            Some(x) => (Ok(x), env),
            None => (Err(undefined_error(v.name@)), env),
        },
        Expression::Assign(a) => {
            let (r, env1) = eval(*a.value, env);
            match r {
                Err(err) => (Err(err), env1),
                Ok(v) => match assign_in(env1, a.name.lexeme@, v) {
                    Some(env2) => (Ok(v), env2),
                    None => (Err(undefined_error(a.name@)), env1),
                },
            }
        },
        Expression::Unary(u) => {
            let (r, env1) = eval(*u.right, env);
            match r {
                Err(err) => (Err(err), env1),
                Ok(v) => match unary_value(u.operator@, or_nil(v)) {
                    Ok(x) => (Ok(Some(x)), env1),
                    Err(err) => (Err(err), env1),
                },
            }
        },
        Expression::Binary(b) => {
            let (l, env1) = eval(*b.left, env);
            match l {
                Err(err) => (Err(err), env1),
                Ok(lv) => {
                    let (r, env2) = eval(*b.right, env1);
                    match r {
                        Err(err) => (Err(err), env2),
                        Ok(rv) => match binary_value(b.operator@, or_nil(lv), or_nil(rv)) {
                            Ok(x) => (Ok(Some(x)), env2),
                            Err(err) => (Err(err), env2),
                        },
                    }
                },
            }
        },
    }
}

/// The model of an evaluation result.
pub open spec fn outcome<N>(r: Result<Option<LiteralValue<N>>, RuntimeError<N>>) -> Outcome<N> {
    match r {
        Ok(v) => Ok(opt_model(v)),
        Err(e) => Err(e@),
    }
}

impl<N: Numeric> Expression<N> {
    pub fn get_type(&self) -> (r: ExpressionType)
        ensures
            r == match *self {
                Expression::Assign(_) => ExpressionType::Assign,
                Expression::Binary(_) => ExpressionType::Binary,
                Expression::Grouping(_) => ExpressionType::Grouping,
                Expression::Literal(_) => ExpressionType::Literal,
                Expression::Unary(_) => ExpressionType::Unary,
                Expression::Variable(_) => ExpressionType::Variable,
            },
    {
        match self {
            Expression::Assign(_) => ExpressionType::Assign,
            Expression::Binary(_) => ExpressionType::Binary,
            Expression::Grouping(_) => ExpressionType::Grouping,
            Expression::Literal(_) => ExpressionType::Literal,
            Expression::Unary(_) => ExpressionType::Unary,
            Expression::Variable(_) => ExpressionType::Variable,
        }
    }

    /// The token a node carries: the name of an assignment or variable, the
    /// operator of a unary or binary expression.
    pub fn get_token(&self) -> (r: Option<Token<N>>)
        ensures
            r == match *self {
                Expression::Assign(a) => Some(a.name),
                Expression::Binary(b) => Some(b.operator),
                Expression::Unary(u) => Some(u.operator),
                Expression::Variable(v) => Some(v.name),
                _ => None,
            },
    {
        match self {
            Expression::Assign(a) => Some(a.name.duplicate()),
            Expression::Binary(b) => Some(b.operator.duplicate()),
            Expression::Unary(u) => Some(u.operator.duplicate()),
            Expression::Variable(v) => Some(v.name.duplicate()),
            _ => None,
        }
    }

    /// The canonical rendering of the expression.
    pub fn accept(&self) -> (r: String)
        ensures
            r@ == render(*self),
        decreases self,
    {
        match self {
            Expression::Assign(a) => {
                let mut out = a.name.lexeme.clone();
                out.append(" = ");
                let v = a.value.accept();
                out.append(v.as_str());
                out
            },
            Expression::Binary(b) => {
                let parts = vec![b.left.accept(), b.right.accept()];
                let r = parenthesize(b.operator.lexeme.as_str(), parts);
                assert(texts(parts@) =~= seq![render(*b.left), render(*b.right)]);
                r
            },
            Expression::Grouping(g) => {
                let parts = vec![g.expression.accept()];
                let r = parenthesize("group", parts);
                assert(texts(parts@) =~= seq![render(*g.expression)]);
                r
            },
            Expression::Literal(l) => l.value.print_value(),
            Expression::Unary(u) => {
                let parts = vec![u.right.accept()];
                let r = parenthesize(u.operator.lexeme.as_str(), parts);
                assert(texts(parts@) =~= seq![render(*u.right)]);
                r
            },
            Expression::Variable(v) => v.name.lexeme.clone(),
        }
    }

    /// Evaluates the expression against the environment, which assignments change.
    pub fn evaluate(&self, environment: &mut Environment<N>) -> (r: Result<Option<LiteralValue<N>>, RuntimeError<N>>)
        requires
            old(environment).wf(),
        ensures
            final(environment).wf(),
            final(environment)@.len() == old(environment)@.len(),
            (outcome(r), final(environment)@) == eval(*self, old(environment)@),
        decreases self,
    {
        match self {
            Expression::Literal(l) => Ok(Some(l.value.duplicate())),
            Expression::Grouping(g) => g.expression.evaluate(environment),
            Expression::Variable(v) => environment.get(&v.name),
            Expression::Assign(a) => {
                let v = a.value.evaluate(environment)?;
                let stored = duplicate_opt(&v);
                match environment.assign(&a.name, stored) {
                    Ok(_) => Ok(v),
                    Err(e) => Err(e),
                }
            },
            Expression::Unary(u) => {
                let right = u.right.evaluate(environment)?;
                let v = value_or_nil(right);
                match unary_operation(&u.operator, &v) {
                    Ok(x) => Ok(Some(x)),
                    Err(e) => Err(e),
                }
            },
            Expression::Binary(b) => {
                let left = b.left.evaluate(environment)?;
                let right = b.right.evaluate(environment)?;
                let x = value_or_nil(left);
                let y = value_or_nil(right);
                match binary_operation(&b.operator, &x, &y) {
                    Ok(v) => Ok(Some(v)),
                    Err(e) => Err(e),
                }
            },
        }
    }
}

/// A runtime error raised at a token.
fn runtime_error<N: Numeric>(token: &Token<N>, message: &str) -> (r: RuntimeError<N>)
    ensures
        r@ == error_at(token@, message@),
{
    RuntimeError { token: token.duplicate(), message: String::from_str(message) }
}

/// Applies a unary operator to a value.
pub fn unary_operation<N: Numeric>(operator: &Token<N>, value: &LiteralValue<N>) -> (r: Result<LiteralValue<N>, RuntimeError<N>>)
    ensures
        match r {
            Ok(v) => unary_value(operator@, value@) == Ok::<LiteralModel<N>, ErrorModel<N>>(v@),
            Err(e) => unary_value(operator@, value@) == Err::<LiteralModel<N>, ErrorModel<N>>(e@),
        },
{
    if operator.token_type == TokenType::Bang {
        return Ok(LiteralValue::Boolean(BooleanLiteral { value: !is_truthy(value) }));
    }
    if operator.token_type == TokenType::Minus {
        if let LiteralValue::Number(n) = value {
            return Ok(LiteralValue::Number(NumberLiteral { value: n.value.neg() }));
        }
    }
    Err(runtime_error(operator, "Operand must be a number."))
}

/// Applies a binary operator to two values.
pub fn binary_operation<N: Numeric>(operator: &Token<N>, left: &LiteralValue<N>, right: &LiteralValue<N>) -> (r: Result<LiteralValue<N>, RuntimeError<N>>)
    ensures
        match r {
            Ok(v) => binary_value(operator@, left@, right@) == Ok::<LiteralModel<N>, ErrorModel<N>>(v@),
            Err(e) => binary_value(operator@, left@, right@) == Err::<LiteralModel<N>, ErrorModel<N>>(e@),
        },
{
    let t = operator.token_type;
    if t == TokenType::BangEqual {
        return Ok(LiteralValue::Boolean(BooleanLiteral { value: !is_equal(left, right) }));
    }
    if t == TokenType::EqualEqual {
        return Ok(LiteralValue::Boolean(BooleanLiteral { value: is_equal(left, right) }));
    }
    let numeric = t == TokenType::Minus || t == TokenType::Slash || t == TokenType::Star || t
        == TokenType::Greater || t == TokenType::GreaterEqual || t == TokenType::Less || t
        == TokenType::LessEqual;
    if !(numeric || t == TokenType::Plus) {
        return Err(runtime_error(operator, "Operands must be numbers or strings."));
    }
    match (left, right) {
        (LiteralValue::Number(a), LiteralValue::Number(b)) => {
            let (x, y) = (&a.value, &b.value);
            let v = match t {
                TokenType::Minus => LiteralValue::Number(NumberLiteral { value: x.sub(y) }),
                TokenType::Slash => LiteralValue::Number(NumberLiteral { value: x.div(y) }),
                TokenType::Star => LiteralValue::Number(NumberLiteral { value: x.mul(y) }),
                TokenType::Plus => LiteralValue::Number(NumberLiteral { value: x.add(y) }),
                TokenType::Greater => LiteralValue::Boolean(BooleanLiteral { value: x.greater(y) }),
                TokenType::GreaterEqual => LiteralValue::Boolean(BooleanLiteral { value: x.greater_equal(y) }),
                TokenType::Less => LiteralValue::Boolean(BooleanLiteral { value: x.less(y) }),
                _ => LiteralValue::Boolean(BooleanLiteral { value: x.less_equal(y) }),
            };
            Ok(v)
        },
        (LiteralValue::String(a), LiteralValue::String(b)) => {
            if t == TokenType::Plus {
                let mut joined = a.value.clone();
                joined.append(b.value.as_str());
                Ok(LiteralValue::String(StringLiteral { value: joined }))
            } else {
                Err(runtime_error(operator, "Operands must be numbers."))
            }
        },
        _ => {
            if t == TokenType::Plus {
                Err(runtime_error(operator, "Operands must be numbers or strings."))
            } else {
                Err(runtime_error(operator, "Operands must be numbers."))
            }
        },
    }
}

/// Equality looks at tags first: `==` on values of different tags yields
/// `false` (and `!=` yields `true`), whatever they print as.
pub proof fn lemma_equality_respects_tags<N: Numeric>(op: TokenModel<N>, x: LiteralModel<N>, y: LiteralModel<N>)
    requires
        type_of(x) != type_of(y),
    ensures
        op.token_type == TokenType::EqualEqual ==> binary_value(op, x, y) == Ok::<LiteralModel<N>, ErrorModel<N>>(LiteralModel::Boolean(false)),
        op.token_type == TokenType::BangEqual ==> binary_value(op, x, y) == Ok::<LiteralModel<N>, ErrorModel<N>>(LiteralModel::Boolean(true)),
{
}

/// The `+` rule: two strings are joined; a number with a string, either
/// way round, fails with "Operands must be numbers or strings." at the operator.
pub proof fn lemma_plus_rule<N: Numeric>(op: TokenModel<N>, a: Seq<char>, b: Seq<char>, n: N)
    requires
        op.token_type == TokenType::Plus,
    ensures
        binary_value(op, LiteralModel::Str(a), LiteralModel::Str(b)) == Ok::<LiteralModel<N>, ErrorModel<N>>(LiteralModel::Str(a + b)),
        binary_value(op, LiteralModel::Number(n), LiteralModel::Str(b)) == Err::<LiteralModel<N>, ErrorModel<N>>(error_at(op, "Operands must be numbers or strings."@)),
        binary_value(op, LiteralModel::Str(a), LiteralModel::Number(n)) == Err::<LiteralModel<N>, ErrorModel<N>>(error_at(op, "Operands must be numbers or strings."@)),
{
}

/// Reading a variable that no scope binds fails with the undefined-variable
/// error raised at the name's token, so it reports the name's line; the
/// scopes are left as they were.
pub proof fn lemma_undefined_read<N: Numeric>(v: VariableExpr<N>, env: Seq<ScopeModel<N>>)
    requires
        lookup(env, v.name.lexeme@) is None,
    ensures
        eval(Expression::Variable(v), env) == (Err::<Option<LiteralModel<N>>, ErrorModel<N>>(undefined_error(v.name@)), env),
        undefined_error(v.name@).token.line == v.name.line,
{
}

/// Assigning to a name that no scope binds (once the value has been
/// evaluated without error) fails with the same undefined-variable error at
/// the name's token; assignment never declares.
pub proof fn lemma_undefined_assign<N: Numeric>(a: AssignExpr<N>, env: Seq<ScopeModel<N>>)
    requires
        eval(*a.value, env).0 is Ok,
        lookup(eval(*a.value, env).1, a.name.lexeme@) is None,
    ensures
        eval(Expression::Assign(a), env).0 == Err::<Option<LiteralModel<N>>, ErrorModel<N>>(undefined_error(a.name@)),
        undefined_error(a.name@).token.line == a.name.line,
{
}

/// An expression with no assignment in it.
pub open spec fn assigns_nothing<N>(e: Expression<N>) -> bool
    decreases e,
{
    match e {
        Expression::Assign(_) => false,
        Expression::Binary(b) => assigns_nothing(*b.left) && assigns_nothing(*b.right),
        Expression::Grouping(g) => assigns_nothing(*g.expression),
        Expression::Unary(u) => assigns_nothing(*u.right),
        Expression::Literal(_) => true,
        Expression::Variable(_) => true,
    }
}

/// Evaluating an expression with no assignment in it leaves the scopes as they were.
pub proof fn lemma_eval_keeps_scopes<N: Numeric>(e: Expression<N>, env: Seq<ScopeModel<N>>)
    requires
        assigns_nothing(e),
    ensures
        eval(e, env).1 == env,
    decreases e,
{
    match e {
        Expression::Binary(b) => {
            lemma_eval_keeps_scopes(*b.left, env);
            lemma_eval_keeps_scopes(*b.right, env);
        },
        Expression::Grouping(g) => {
            lemma_eval_keeps_scopes(*g.expression, env);
        },
        Expression::Unary(u) => {
            lemma_eval_keeps_scopes(*u.right, env);
        },
        _ => {},
    }
}

/// Evaluating an expression never changes which names are bound.
pub proof fn lemma_eval_keeps_names<N: Numeric>(e: Expression<N>, env: Seq<ScopeModel<N>>)
    ensures
        same_names(env, eval(e, env).1),
    decreases e,
{
    match e {
        Expression::Binary(b) => {
            lemma_eval_keeps_names(*b.left, env);
            lemma_eval_keeps_names(*b.right, eval(*b.left, env).1);
        },
        Expression::Grouping(g) => {
            lemma_eval_keeps_names(*g.expression, env);
        },
        Expression::Unary(u) => {
            lemma_eval_keeps_names(*u.right, env);
        },
        Expression::Assign(a) => {
            lemma_eval_keeps_names(*a.value, env);
            let (r, env1) = eval(*a.value, env);
            if r is Ok {
                if assign_in(env1, a.name.lexeme@, r->Ok_0) is Some {
                    lemma_assign_keeps_names(env1, a.name.lexeme@, r->Ok_0);
                }
            }
        },
        _ => {},
    }
}

/// Whether an expression assigns to the name `x` anywhere.
pub open spec fn assigns_to<N>(e: Expression<N>, x: Seq<char>) -> bool
    decreases e,
{
    match e {
        Expression::Assign(a) => a.name.lexeme@ == x || assigns_to(*a.value, x),
        Expression::Binary(b) => assigns_to(*b.left, x) || assigns_to(*b.right, x),
        Expression::Grouping(g) => assigns_to(*g.expression, x),
        Expression::Unary(u) => assigns_to(*u.right, x),
        Expression::Literal(_) => false,
        Expression::Variable(_) => false,
    }
}

/// Evaluating an expression that never assigns to `x` leaves every binding
/// of `x` as it was.
pub proof fn lemma_eval_keeps_bindings_of<N: Numeric>(e: Expression<N>, env: Seq<ScopeModel<N>>, x: Seq<char>)
    requires
        !assigns_to(e, x),
    ensures
        keeps_bindings_of(env, eval(e, env).1, x),
    decreases e,
{
    match e {
        Expression::Binary(b) => {
            lemma_eval_keeps_bindings_of(*b.left, env, x);
            let env1 = eval(*b.left, env).1;
            lemma_eval_keeps_bindings_of(*b.right, env1, x);
            lemma_keeps_trans(env, env1, eval(*b.right, env1).1, x);
        },
        Expression::Grouping(g) => {
            lemma_eval_keeps_bindings_of(*g.expression, env, x);
        },
        Expression::Unary(u) => {
            lemma_eval_keeps_bindings_of(*u.right, env, x);
        },
        Expression::Assign(a) => {
            lemma_eval_keeps_bindings_of(*a.value, env, x);
            let (r, env1) = eval(*a.value, env);
            if r is Ok && assign_in(env1, a.name.lexeme@, r->Ok_0) is Some {
                lemma_assign_keeps_other(env1, a.name.lexeme@, r->Ok_0, x);
                lemma_keeps_trans(env, env1, assign_in(env1, a.name.lexeme@, r->Ok_0)->Some_0, x);
            }
        },
        _ => {
            lemma_keeps_refl(env, x);
        },
    }
}

} // verus!
