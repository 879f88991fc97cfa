//! The recursive-descent parser: tokens to expressions and statements.
//!
//! What a parse yields is stated structurally: the tree reads back as exactly
//! the tokens consumed (`expr_syms`, `stmt_syms`), and every node sits at a
//! precedence level its parent allows (`fits`), which fixes precedence and
//! associativity. A parse succeeds exactly when such a reading of the tokens
//! exists (`expression_at`, `statements_at`).
use crate::expression::{
    AssignExpr, BinaryExpr, Expression, GroupingExpr, LiteralExpr, UnaryExpr, VariableExpr,
};
use crate::number::Numeric;
use crate::statement::{BlockStmt, ExpressionStmt, PrintStmt, Statement, VarStmt};
use crate::scan::views;
use crate::token::{
    token_text, BooleanLiteral, LiteralModel, LiteralValue, NilLiteral, Token, TokenModel,
};
use crate::TokenType;
use vstd::prelude::*;
use vstd::string::*;

verus! {

/// What a token contributes to the text of a tree: a name or an operator
/// (the whole token, line and lexeme included), a literal value, or its kind.
pub enum Sym<N> {
    Kind(TokenType),
    Name(TokenModel<N>),
    Op(TokenModel<N>),
    Lit(LiteralModel<N>),
}

pub open spec fn token_sym<N>(t: TokenModel<N>) -> Sym<N> {
    match t.token_type {
        TokenType::Identifier => Sym::Name(t),
        TokenType::Number | TokenType::String => match t.literal {
            Some(v) => Sym::Lit(v),
            None => Sym::Kind(t.token_type),
        },
        TokenType::True => Sym::Lit(LiteralModel::Boolean(true)),
        TokenType::False => Sym::Lit(LiteralModel::Boolean(false)),
        TokenType::Nil => Sym::Lit(LiteralModel::Nil),
        _ => if binary_level(t.token_type) >= 1 || t.token_type == TokenType::Bang {
            Sym::Op(t)
        } else {
            Sym::Kind(t.token_type)
        },
    }
}

pub open spec fn token_syms<N>(ts: Seq<TokenModel<N>>) -> Seq<Sym<N>> {
    ts.map_values(|t: TokenModel<N>| token_sym(t))
}

/// The tokens an expression reads back as.
pub open spec fn expr_syms<N>(e: Expression<N>) -> Seq<Sym<N>>
    decreases e,
{
    match e {
        Expression::Literal(l) => seq![Sym::Lit(l.value@)],
        Expression::Variable(v) => seq![token_sym(v.name@)],
        Expression::Grouping(g) => seq![Sym::Kind(TokenType::LeftParen)] + expr_syms(*g.expression) + seq![
            Sym::Kind(TokenType::RightParen),
        ],
        Expression::Unary(u) => seq![token_sym(u.operator@)] + expr_syms(*u.right),
        Expression::Binary(b) => expr_syms(*b.left) + seq![token_sym(b.operator@)] + expr_syms(*b.right),
        Expression::Assign(a) => seq![token_sym(a.name@), Sym::Kind(TokenType::Equal)] + expr_syms(*a.value),
    }
}

/// The precedence level of a binary operator, from equality (1) to factor
/// (4); 0 for a token that is no binary operator.
pub open spec fn binary_level(t: TokenType) -> int {
    match t {
        TokenType::BangEqual | TokenType::EqualEqual => 1,
        TokenType::Greater | TokenType::GreaterEqual | TokenType::Less | TokenType::LessEqual => 2,
        TokenType::Minus | TokenType::Plus => 3,
        TokenType::Slash | TokenType::Star => 4,
        _ => 0,
    }
}

/// Levels: 0 assignment, 1 equality, 2 comparison, 3 term, 4 factor,
/// 5 unary, 6 primary. An expression fits at a level when the parser
/// function of that level can produce it: binary levels fold to the left,
/// assignment nests to the right, and a grouping resets to the lowest level.
pub open spec fn fits<N>(e: Expression<N>, level: int) -> bool
    decreases e,
{
    match e {
        Expression::Assign(a) => level <= 0 && a.name.token_type == TokenType::Identifier && fits(*a.value, 0),
        Expression::Binary(b) => {
            let k = binary_level(b.operator.token_type);
            1 <= k && level <= k && fits(*b.left, k) && fits(*b.right, k + 1)
        },
        Expression::Unary(u) => (u.operator.token_type == TokenType::Bang || u.operator.token_type
            == TokenType::Minus) && level <= 5 && fits(*u.right, 5),
        Expression::Grouping(g) => level <= 6 && fits(*g.expression, 0),
        Expression::Literal(_) => level <= 6,
        Expression::Variable(v) => level <= 6 && v.name.token_type == TokenType::Identifier,
    }
}

/// An expression that fits at one level fits at every lower one.
pub proof fn lemma_fits_lower<N>(e: Expression<N>, level: int, lower: int)
    requires
        fits(e, level),
        lower <= level,
    ensures
        fits(e, lower),
{
}

/// The reading of consecutive stretches of tokens joins up.
pub proof fn lemma_syms_join<N>(ts: Seq<Token<N>>, a: int, b: int, c: int)
    requires
        0 <= a <= b <= c <= ts.len(),
    ensures
        token_syms(views(ts.subrange(a, b))) + token_syms(views(ts.subrange(b, c))) == token_syms(
            views(ts.subrange(a, c)),
        ),
{
    assert(token_syms(views(ts.subrange(a, b))) + token_syms(views(ts.subrange(b, c))) =~= token_syms(
        views(ts.subrange(a, c)),
    ));
}

/// One token reads as its symbol.
pub proof fn lemma_syms_one<N>(ts: Seq<Token<N>>, a: int)
    requires
        0 <= a < ts.len(),
    ensures
        token_syms(views(ts.subrange(a, a + 1))) == seq![token_sym(ts[a]@)],
{
    assert(token_syms(views(ts.subrange(a, a + 1))) =~= seq![token_sym(ts[a]@)]);
}

/// A token that ends an expression of the level: no binary operator of that
/// level or a tighter one, and at the assignment level no `=` either.
pub open spec fn stops(t: TokenType, level: int) -> bool {
    (binary_level(t) == 0 || binary_level(t) < level) && (level > 0 || t != TokenType::Equal)
}

/// The tokens `p..q` read as `e`, which fits at the level, and the token at
/// `q` ends it.
pub open spec fn reads_as<N>(ts: Seq<Token<N>>, p: int, q: int, e: Expression<N>, level: int) -> bool {
    &&& 0 <= p <= q < ts.len()
    &&& fits(e, level)
    &&& expr_syms(e) == token_syms(views(ts.subrange(p, q)))
    &&& stops(ts[q].token_type, level)
}

/// The tokens from `p` start with an expression of the level that ends at `q`.
pub open spec fn expression_at<N>(ts: Seq<Token<N>>, p: int, q: int, level: int) -> bool {
    exists|e: Expression<N>| reads_as(ts, p, q, e, level)
}

/// Every expression reads as at least one token.
pub proof fn lemma_syms_nonempty<N>(e: Expression<N>)
    ensures
        expr_syms(e).len() >= 1,
    decreases e,
{
    match e {
        Expression::Binary(b) => lemma_syms_nonempty(*b.left),
        _ => {},
    }
}

/// The first token of an expression: a unary operator for a unary
/// expression, else (at the primary level) a literal, a name or `(`.
pub proof fn lemma_first_sym<N>(e: Expression<N>)
    ensures
        e is Unary ==> expr_syms(e)[0] == token_sym(e->Unary_0.operator@),
        e is Literal ==> expr_syms(e)[0] == Sym::Lit(e->Literal_0.value@) && expr_syms(e).len() == 1,
        e is Variable ==> expr_syms(e)[0] == token_sym(e->Variable_0.name@) && expr_syms(e).len() == 1,
        e is Grouping ==> expr_syms(e)[0] == Sym::<N>::Kind(TokenType::LeftParen) && expr_syms(e).len() >= 3,
{
    if let Expression::Grouping(g) = e {
        lemma_syms_nonempty(*g.expression);
    }
}

/// An expression that reads as a single name and fits at the equality level
/// is a variable.
pub proof fn lemma_single_name<N>(e: Expression<N>)
    requires
        expr_syms(e).len() == 1,
        expr_syms(e)[0] is Name,
    ensures
        e is Variable,
{
    match e {
        Expression::Binary(b) => {
            lemma_syms_nonempty(*b.left);
            lemma_syms_nonempty(*b.right);
        },
        Expression::Unary(u) => lemma_syms_nonempty(*u.right),
        Expression::Grouping(g) => lemma_syms_nonempty(*g.expression),
        Expression::Assign(a) => lemma_syms_nonempty(*a.value),
        _ => {},
    }
}

/// A part of the reading of a stretch of tokens is the reading of the part.
pub proof fn lemma_syms_part<N>(ts: Seq<Token<N>>, p: int, q: int, a: int, b: int)
    requires
        0 <= p <= q <= ts.len(),
        0 <= a <= b <= q - p,
    ensures
        token_syms(views(ts.subrange(p, q))).subrange(a, b) == token_syms(views(ts.subrange(p + a, p + b))),
{
    assert(token_syms(views(ts.subrange(p, q))).subrange(a, b) =~= token_syms(views(ts.subrange(p + a, p + b))));
}

/// `sub` lies on the left spine of `e` that runs through operators of level `k`.
pub open spec fn on_spine<N>(e: Expression<N>, sub: Expression<N>, k: int) -> bool
    decreases e,
{
    e == sub || match e {
        Expression::Binary(b) => binary_level(b.operator.token_type) == k && on_spine(*b.left, sub, k),
        _ => false,
    }
}

/// The leftmost operand of a chain of level-`k` operators.
pub open spec fn spine_bottom<N>(e: Expression<N>, k: int) -> Expression<N>
    decreases e,
{
    match e {
        Expression::Binary(b) => if binary_level(b.operator.token_type) == k {
            spine_bottom(*b.left, k)
        } else {
            e
        },
        _ => e,
    }
}

/// The node of the spine whose left operand is `sub`.
pub open spec fn spine_parent<N>(e: Expression<N>, sub: Expression<N>) -> Expression<N>
    decreases e,
{
    match e {
        Expression::Binary(b) => if *b.left == sub {
            e
        } else {
            spine_parent(*b.left, sub)
        },
        _ => e,
    }
}

/// Every node of a spine fits at its level and reads as a prefix of the whole.
pub proof fn lemma_spine_prefix<N>(e: Expression<N>, sub: Expression<N>, k: int)
    requires
        on_spine(e, sub, k),
    ensures
        expr_syms(sub).len() <= expr_syms(e).len(),
        expr_syms(sub) == expr_syms(e).subrange(0, expr_syms(sub).len() as int),
        fits(e, k) ==> fits(sub, k),
    decreases e,
{
    if e != sub {
        let b = e->Binary_0;
        lemma_spine_prefix(*b.left, sub, k);
        assert(expr_syms(e) == expr_syms(*b.left) + seq![token_sym(b.operator@)] + expr_syms(*b.right));
        assert(expr_syms(sub) =~= expr_syms(e).subrange(0, expr_syms(sub).len() as int));
    } else {
        assert(expr_syms(e) =~= expr_syms(e).subrange(0, expr_syms(e).len() as int));
    }
}

/// The bottom of a spine lies on it, and fits one level tighter.
pub proof fn lemma_spine_bottom<N>(e: Expression<N>, k: int)
    requires
        1 <= k <= 4,
        fits(e, k),
    ensures
        on_spine(e, spine_bottom(e, k), k),
        fits(spine_bottom(e, k), k + 1),
    decreases e,
{
    if let Expression::Binary(b) = e {
        if binary_level(b.operator.token_type) == k {
            lemma_spine_bottom(*b.left, k);
        }
    }
}

/// A node of the spine other than the top has a parent on the spine: a
/// level-`k` operator with the node as its left operand.
pub proof fn lemma_spine_parent<N>(e: Expression<N>, sub: Expression<N>, k: int)
    requires
        on_spine(e, sub, k),
        e != sub,
    ensures
        on_spine(e, spine_parent(e, sub), k),
        spine_parent(e, sub) is Binary,
        *spine_parent(e, sub)->Binary_0.left == sub,
        binary_level(spine_parent(e, sub)->Binary_0.operator.token_type) == k,
    decreases e,
{
    let b = e->Binary_0;
    if *b.left != sub {
        lemma_spine_parent(*b.left, sub, k);
    }
}

/// Where a node of the spine of an expression read at `p..q` ends, the next
/// token is the parent's operator, or, for the top, the token at `q`.
pub proof fn lemma_spine_next<N>(ts: Seq<Token<N>>, p: int, q: int, e: Expression<N>, sub: Expression<N>, k: int)
    requires
        0 <= p <= q < ts.len(),
        expr_syms(e) == token_syms(views(ts.subrange(p, q))),
        on_spine(e, sub, k),
    ensures
        p + expr_syms(sub).len() <= q,
        token_syms(views(ts.subrange(p, p + expr_syms(sub).len()))) == expr_syms(sub),
        sub == e ==> p + expr_syms(sub).len() == q,
        sub != e ==> p + expr_syms(sub).len() < q && binary_level(ts[p + expr_syms(sub).len()].token_type) == k,
{
    lemma_spine_prefix(e, sub, k);
    let n = expr_syms(sub).len() as int;
    lemma_syms_part(ts, p, q, 0, n);
    if sub != e {
        lemma_spine_parent(e, sub, k);
        let par = spine_parent(e, sub);
        lemma_spine_prefix(e, par, k);
        let pb = par->Binary_0;
        assert(expr_syms(par) == expr_syms(sub) + seq![token_sym(pb.operator@)] + expr_syms(*pb.right));
        assert(expr_syms(par)[n] == token_sym(pb.operator@));
        assert(expr_syms(e)[n] == expr_syms(par)[n]);
        lemma_syms_part(ts, p, q, n, n + 1);
        assert(token_syms(views(ts.subrange(p + n, p + n + 1)))[0] == token_sym(ts[p + n]@));
    }
}

/// What parsing an expression at a level promises: the parser stays
/// well formed over the same tokens and never moves back, and a tree it
/// returns fits at that level and reads as exactly the tokens consumed.
pub open spec fn expr_parsed<N: Numeric>(
    before: Parser<N>,
    after: Parser<N>,
    r: Result<Expression<N>, ParserError<N>>,
    level: int,
) -> bool {
    &&& after.wf()
    &&& after.tokens == before.tokens
    &&& before.current <= after.current
    &&& (r is Ok ==> fits(r->Ok_0, level) && expr_syms(r->Ok_0) == before.syms_between(
        before.current as int,
        after.current as int,
    ) && stops(after.next_kind(), level))
    &&& (!can_start_expression(before.next_kind()) ==> r == Err::<Expression<N>, ParserError<N>>(
        ParserError::UnexpectedToken(before.tokens@[before.current as int]),
    ) && after.current == before.current)
}

/// At `p` a parenthesis opens, an expression follows, and the token after
/// that expression is not the closing parenthesis.
pub open spec fn unclosed_group<N>(ts: Seq<Token<N>>, p: int) -> bool {
    &&& 0 <= p < ts.len()
    &&& ts[p].token_type == TokenType::LeftParen
    &&& exists|q: int| expression_at(ts, p + 1, q, 0) && ts[q].token_type != TokenType::RightParen
}

/// The tokens from `p` start with an expression of the level.
pub open spec fn expression_from<N>(ts: Seq<Token<N>>, p: int, level: int) -> bool {
    exists|q: int| expression_at(ts, p, q, level)
}

/// At `p` an expression of the equality level that is no variable ends at
/// `q`, where `=` and then an expression follow: an assignment to something
/// that cannot be assigned.
pub open spec fn bad_target<N>(ts: Seq<Token<N>>, p: int, q: int) -> bool {
    &&& expression_at(ts, p, q, 1)
    &&& ts[q].token_type == TokenType::Equal
    &&& expression_from(ts, q + 1, 0)
    &&& !(q == p + 1 && ts[p].token_type == TokenType::Identifier)
}

/// At `p` an expression ends at `q`, and no `;` follows it.
pub open spec fn unterminated<N>(ts: Seq<Token<N>>, p: int, q: int) -> bool {
    expression_at(ts, p, q, 0) && ts[q].token_type != TokenType::Semicolon
}

/// The tokens `p..c` read as well-formed statements.
pub open spec fn statements_upto<N>(ts: Seq<Token<N>>, p: int, c: int) -> bool {
    exists|ss: Seq<Statement<N>>| list_ok(ss) && #[trigger] list_syms(ss) == token_syms(views(ts.subrange(p, c)))
}

/// The first declaration that fails starts at `c`: the tokens before it read
/// as statements, the input goes on, and no statement starts there.
pub open spec fn first_failure<N>(ts: Seq<Token<N>>, p: int, c: int) -> bool {
    &&& p <= c < ts.len()
    &&& ts[c].token_type != TokenType::Eof
    &&& statements_upto(ts, p, c)
    &&& !(exists|q: int| statement_at(ts, c, q))
}

/// A token kind that begins a primary expression.
pub open spec fn starts_primary(t: TokenType) -> bool {
    t == TokenType::False || t == TokenType::True || t == TokenType::Nil || t == TokenType::Number || t
        == TokenType::String || t == TokenType::Identifier || t == TokenType::LeftParen
}

/// The tokens from `p` start with an expression that no `;` follows.
pub open spec fn unterminated_from<N>(ts: Seq<Token<N>>, p: int) -> bool {
    exists|q: int| unterminated(ts, p, q)
}

/// A token kind that can begin a declaration.
pub open spec fn starts_declaration(t: TokenType) -> bool {
    t == TokenType::Var || t == TokenType::Print || t == TokenType::LeftBrace || can_start_expression(t)
}

/// The shapes of a failing declaration at `c` whose error is known from the
/// tokens: a token that starts none; `print`, an expression and no `;`; an
/// expression and no `;`; `var` without a name; `var` and a name, then
/// neither `=` nor `;`; `var`, a name, `=`, an expression and no `;`.
pub open spec fn known_failure<N>(ts: Seq<Token<N>>, c: int) -> bool {
    let t = ts[c].token_type;
    ||| !starts_declaration(t)
    ||| t == TokenType::Print && unterminated_from(ts, c + 1)
    ||| can_start_expression(t) && unterminated_from(ts, c)
    ||| t == TokenType::Var && ts[c + 1].token_type != TokenType::Identifier
    ||| t == TokenType::Var && ts[c + 1].token_type == TokenType::Identifier && c + 2 < ts.len() && ts[c
        + 2].token_type != TokenType::Equal && ts[c + 2].token_type != TokenType::Semicolon
    ||| t == TokenType::Var && ts[c + 1].token_type == TokenType::Identifier && c + 2 < ts.len() && ts[c
        + 2].token_type == TokenType::Equal && unterminated_from(ts, c + 3)
}

/// The error each known failing shape of a declaration at `c` raises.
pub open spec fn declaration_error<N>(ts: Seq<Token<N>>, c: int, e: ParserError<N>) -> bool {
    let t = ts[c].token_type;
    &&& !starts_declaration(t) ==> e == ParserError::UnexpectedToken(ts[c])
    &&& t == TokenType::Print && unterminated_from(ts, c + 1) ==> exists|q: int|
        #[trigger] unterminated(ts, c + 1, q) && e == ParserError::NoSemicolon(ts[q - 1])
    &&& can_start_expression(t) && unterminated_from(ts, c) ==> exists|q: int|
        unterminated(ts, c, q) && e == ParserError::NoSemicolon(ts[q - 1])
    &&& t == TokenType::Var && ts[c + 1].token_type != TokenType::Identifier ==> e
        == ParserError::UndisclosedDelimiter(ts[c + 1])
    &&& t == TokenType::Var && ts[c + 1].token_type == TokenType::Identifier && c + 2 < ts.len() && ts[c
        + 2].token_type != TokenType::Equal && ts[c + 2].token_type != TokenType::Semicolon ==> e
        == ParserError::NoSemicolon(ts[c + 1])
    &&& t == TokenType::Var && ts[c + 1].token_type == TokenType::Identifier && c + 2 < ts.len() && ts[c
        + 2].token_type == TokenType::Equal && unterminated_from(ts, c + 3) ==> exists|q: int|
        #[trigger] unterminated(ts, c + 3, q) && e == ParserError::NoSemicolon(ts[q - 1])
}

/// A token kind that can begin an expression.
pub open spec fn can_start_expression(t: TokenType) -> bool {
    t == TokenType::Bang || t == TokenType::Minus || t == TokenType::LeftParen || t == TokenType::False
        || t == TokenType::True || t == TokenType::Nil || t == TokenType::Identifier || t
        == TokenType::Number || t == TokenType::String
}

/// The tokens a statement reads back as.
pub open spec fn stmt_syms<N>(s: Statement<N>) -> Seq<Sym<N>>
    decreases s,
{
    match s {
        Statement::Expression(e) => expr_syms(e.value) + seq![Sym::Kind(TokenType::Semicolon)],
        Statement::Print(p) => seq![Sym::Kind(TokenType::Print)] + expr_syms(p.value) + seq![
            Sym::Kind(TokenType::Semicolon),
        ],
        Statement::Var(v) => seq![Sym::Kind(TokenType::Var), token_sym(v.name@)] + match v.initializer {
            Some(e) => seq![Sym::Kind(TokenType::Equal)] + expr_syms(e),
            None => Seq::empty(),
        } + seq![Sym::Kind(TokenType::Semicolon)],
        Statement::Block(b) => seq![Sym::Kind(TokenType::LeftBrace)] + list_syms(b.stmts@) + seq![
            Sym::Kind(TokenType::RightBrace),
        ],
    }
}

/// The tokens a statement list reads back as.
pub open spec fn list_syms<N>(ss: Seq<Statement<N>>) -> Seq<Sym<N>>
    decreases ss,
{
    if ss.len() == 0 {
        Seq::empty()
    } else {
        list_syms(ss.drop_last()) + stmt_syms(ss.last())
    }
}

/// Every expression of the statement is a whole expression (it fits at the
/// assignment level) and every declared name is an identifier.
pub open spec fn stmt_ok<N>(s: Statement<N>) -> bool
    decreases s,
{
    match s {
        Statement::Expression(e) => fits(e.value, 0),
        Statement::Print(p) => fits(p.value, 0),
        Statement::Var(v) => v.name.token_type == TokenType::Identifier && match v.initializer {
            Some(e) => fits(e, 0),
            None => true,
        },
        Statement::Block(b) => list_ok(b.stmts@),
    }
}

pub open spec fn list_ok<N>(ss: Seq<Statement<N>>) -> bool
    decreases ss,
{
    if ss.len() == 0 {
        true
    } else {
        list_ok(ss.drop_last()) && stmt_ok(ss.last())
    }
}

/// Every statement reads as at least one token.
pub proof fn lemma_stmt_syms_nonempty<N>(s: Statement<N>)
    ensures
        stmt_syms(s).len() > 0,
{
}

/// The tokens `p..q` read as the statement `s`, and tokens remain after it.
pub open spec fn stmt_reads_as<N>(ts: Seq<Token<N>>, p: int, q: int, s: Statement<N>) -> bool {
    &&& 0 <= p <= q < ts.len()
    &&& stmt_ok(s)
    &&& stmt_syms(s) == token_syms(views(ts.subrange(p, q)))
}

/// The tokens from `p` start with a statement that ends at `q`.
pub open spec fn statement_at<N>(ts: Seq<Token<N>>, p: int, q: int) -> bool {
    exists|s: Statement<N>| stmt_reads_as(ts, p, q, s)
}

/// The tokens `p..q` read as the statements `ss`, and the token at `q` is `end`.
pub open spec fn list_reads_as<N>(ts: Seq<Token<N>>, p: int, q: int, ss: Seq<Statement<N>>, end: TokenType) -> bool {
    &&& 0 <= p <= q < ts.len()
    &&& list_ok(ss)
    &&& list_syms(ss) == token_syms(views(ts.subrange(p, q)))
    &&& ts[q].token_type == end
}

/// The tokens from `p` read as statements up to a token of kind `end` at `q`.
pub open spec fn statements_at<N>(ts: Seq<Token<N>>, p: int, q: int, end: TokenType) -> bool {
    exists|ss: Seq<Statement<N>>| list_reads_as(ts, p, q, ss, end)
}

/// The first token of an expression is a literal, a name, `(`, `!` or `-`.
pub proof fn lemma_expr_first<N>(e: Expression<N>, level: int)
    requires
        fits(e, level),
    ensures
        expr_syms(e).len() >= 1,
        ({
            let f = expr_syms(e)[0];
            f is Lit || f is Name || f == Sym::<N>::Kind(TokenType::LeftParen) || (f is Op && (f->Op_0.token_type
                == TokenType::Bang || f->Op_0.token_type == TokenType::Minus))
        }),
    decreases e,
{
    lemma_syms_nonempty(e);
    match e {
        Expression::Binary(b) => {
            lemma_expr_first(*b.left, binary_level(b.operator.token_type));
        },
        _ => {},
    }
}

/// The first token of a statement: `var`, `print`, `{`, or the first token
/// of an expression; never `}` or the end of input.
pub proof fn lemma_stmt_first<N>(s: Statement<N>)
    requires
        stmt_ok(s),
    ensures
        stmt_syms(s).len() >= 1,
        stmt_syms(s)[0] != Sym::<N>::Kind(TokenType::RightBrace),
        stmt_syms(s)[0] != Sym::<N>::Kind(TokenType::Eof),
        (stmt_syms(s)[0] == Sym::<N>::Kind(TokenType::Var)) == (s is Var),
        (stmt_syms(s)[0] == Sym::<N>::Kind(TokenType::Print)) == (s is Print),
        (stmt_syms(s)[0] == Sym::<N>::Kind(TokenType::LeftBrace)) == (s is Block),
{
    match s {
        Statement::Expression(e) => {
            lemma_expr_first(e.value, 0);
        },
        _ => {},
    }
}

/// The reading of a statement list splits at any statement.
pub proof fn lemma_list_syms_split<N>(ss: Seq<Statement<N>>, i: int)
    requires
        0 <= i < ss.len(),
    ensures
        list_syms(ss.subrange(0, i + 1)) == list_syms(ss.subrange(0, i)) + stmt_syms(ss[i]),
        list_ok(ss) ==> stmt_ok(ss[i]) && list_ok(ss.subrange(0, i + 1)),
        list_syms(ss.subrange(0, i + 1)).len() <= list_syms(ss).len(),
        list_syms(ss.subrange(0, i + 1)) == list_syms(ss).subrange(0, list_syms(ss.subrange(0, i + 1)).len() as int),
    decreases ss.len(),
{
    assert(ss.subrange(0, i + 1).drop_last() =~= ss.subrange(0, i));
    if i + 1 < ss.len() {
        lemma_list_syms_split(ss.drop_last(), i);
        assert(ss.drop_last().subrange(0, i + 1) =~= ss.subrange(0, i + 1));
        assert(ss.drop_last().subrange(0, i) =~= ss.subrange(0, i));
        assert(list_syms(ss) == list_syms(ss.drop_last()) + stmt_syms(ss.last()));
        assert(list_syms(ss.subrange(0, i + 1)) =~= list_syms(ss).subrange(0, list_syms(ss.subrange(0, i + 1)).len() as int));
    } else {
        assert(ss.subrange(0, i + 1) =~= ss);
        assert(list_syms(ss) =~= list_syms(ss).subrange(0, list_syms(ss).len() as int));
    }
}

/// What parsing a statement promises, as `expr_parsed` does for expressions.
pub open spec fn stmt_parsed<N: Numeric>(
    before: Parser<N>,
    after: Parser<N>,
    r: Result<Statement<N>, ParserError<N>>,
) -> bool {
    &&& after.wf()
    &&& after.tokens == before.tokens
    &&& before.current <= after.current
    &&& (r is Ok ==> stmt_ok(r->Ok_0) && stmt_syms(r->Ok_0) == before.syms_between(
        before.current as int,
        after.current as int,
    ))
}

/// The position of the token read last, before position `current` (the
/// first token when nothing has been read).
pub open spec fn last_read(current: int) -> int {
    if current > 0 {
        current - 1
    } else {
        0
    }
}

/// A keyword that starts a statement, where error recovery resumes.
pub open spec fn starts_statement(t: TokenType) -> bool {
    t == TokenType::Class || t == TokenType::Fun || t == TokenType::Var || t == TokenType::For || t
        == TokenType::If || t == TokenType::While || t == TokenType::Print || t == TokenType::Return
}

/// A statement boundary at position `i`: the input has ended, the token
/// before is `;`, or the next token starts a statement.
pub open spec fn sync_boundary<N>(ts: Seq<Token<N>>, i: int) -> bool {
    ts[i].token_type == TokenType::Eof || (i > 0 && ts[i - 1].token_type == TokenType::Semicolon)
        || starts_statement(ts[i].token_type)
}

/// A syntax error, at the token where it was found.
pub enum ParserError<N> {
    UndisclosedDelimiter(Token<N>),
    ExpectExpression(Token<N>),
    UnexpectedToken(Token<N>),
    NoSemicolon(Token<N>),
    InvalidAssignmentTarget(Token<N>),
}

/// Parses a token sequence that ends in the end-of-input token.
pub struct Parser<N> {
    pub tokens: Vec<Token<N>>,
    /// The next token to read.
    pub current: usize,
}

/// A token sequence the parser can read: it ends in the end-of-input token.
pub open spec fn ends_in_eof<N>(tokens: Seq<Token<N>>) -> bool {
    tokens.len() > 0 && tokens.last().token_type == TokenType::Eof
}

impl<N: Numeric> Parser<N> {
    pub open spec fn wf(&self) -> bool {
        ends_in_eof(self.tokens@) && self.current < self.tokens@.len()
    }

    /// The tokens from `a` to `b`, as they read.
    pub open spec fn syms_between(&self, a: int, b: int) -> Seq<Sym<N>> {
        token_syms(views(self.tokens@.subrange(a, b)))
    }

    pub open spec fn next_kind(&self) -> TokenType {
        self.tokens@[self.current as int].token_type
    }

    pub fn new(tokens: Vec<Token<N>>) -> (r: Self)
        requires
            ends_in_eof(tokens@),
        ensures
            r.wf(),
            r.tokens == tokens,
            r.current == 0,
    {
        Parser { tokens, current: 0 }
    }

    fn is_at_end(&self) -> (r: bool)
        requires
            self.wf(),
        ensures
            r == (self.next_kind() == TokenType::Eof),
    {
        self.peek().token_type == TokenType::Eof
    }

    fn peek(&self) -> (r: &Token<N>)
        requires
            self.wf(),
        ensures
            *r == self.tokens@[self.current as int],
    {
        &self.tokens[self.current]
    }

    fn previous(&self) -> (r: &Token<N>)
        requires
            0 < self.current <= self.tokens@.len(),
        ensures
            *r == self.tokens@[self.current - 1],
    {
        &self.tokens[self.current - 1]
    }

    /// Whether the next token is of the given kind (never at the end).
    fn check(&self, token_type: TokenType) -> (r: bool)
        requires
            self.wf(),
        ensures
            r == (self.next_kind() != TokenType::Eof && self.next_kind() == token_type),
    {
        if self.is_at_end() {
            return false;
        }
        self.peek().token_type == token_type
    }

    /// Moves past the next token unless it ends the input, and returns the
    /// token before the new position.
    fn advance(&mut self) -> (r: Token<N>)
        requires
            old(self).wf(),
        ensures
            final(self).wf(),
            final(self).tokens == old(self).tokens,
            final(self).current == old(self).current + if old(self).next_kind() == TokenType::Eof {
                0int
            } else {
                1int
            },
            final(self).current > 0 ==> r == final(self).tokens@[final(self).current - 1],
    {
        let n = self.tokens.len();
        if !self.is_at_end() {
            proof {
                if self.current + 1 >= self.tokens@.len() {
                    assert(self.tokens@[self.current as int] == self.tokens@.last());
                }
            }
            self.current = self.current + 1;
        }
        if self.current > 0 {
            self.previous().duplicate()
        } else {
            self.peek().duplicate()
        }
    }

    /// Consumes the next token if it is of one of the given kinds.
    fn match_tokens(&mut self, types: &[TokenType]) -> (r: bool)
        requires
            old(self).wf(),
        ensures
            final(self).wf(),
            final(self).tokens == old(self).tokens,
            r == (old(self).next_kind() != TokenType::Eof && types@.contains(old(self).next_kind())),
            final(self).current == old(self).current + if r {
                1int
            } else {
                0int
            },
    {
        let mut i: usize = 0;
        while i < types.len()
            invariant
                i <= types@.len(),
                self == old(self),
                self.wf(),
                forall|k: int| 0 <= k < i ==> !(self.next_kind() != TokenType::Eof && types@[k] == self.next_kind()),
            decreases types.len() - i,
        {
            if self.check(types[i]) {
                self.advance();
                return true;
            }
            i = i + 1;
        }
        false
    }

    /// Consumes a token of the given kind, or fails: a missing `;` is its own
    /// error, carrying the token after which it was expected; any other
    /// missing token is a delimiter error at the token found instead.
    fn consume(&mut self, token_type: TokenType) -> (r: Result<Token<N>, ParserError<N>>)
        requires
            old(self).wf(),
        ensures
            final(self).wf(),
            final(self).tokens == old(self).tokens,
            match r {
                Ok(t) => {
                    &&& old(self).next_kind() != TokenType::Eof
                    &&& old(self).next_kind() == token_type
                    &&& final(self).current == old(self).current + 1
                    &&& t == old(self).tokens@[old(self).current as int]
                },
                Err(e) => {
                    &&& !(old(self).next_kind() != TokenType::Eof && old(self).next_kind() == token_type)
                    &&& final(self).current == old(self).current
                    &&& e == if token_type == TokenType::Semicolon {
                        ParserError::NoSemicolon(old(self).tokens@[last_read(old(self).current as int)])
                    } else {
                        ParserError::UndisclosedDelimiter(old(self).tokens@[old(self).current as int])
                    }
                },
            },
    {
        if self.check(token_type) {
            return Ok(self.advance());
        }
        if token_type == TokenType::Semicolon {
            let after = if self.current > 0 {
                self.previous()
            } else {
                self.peek()
            };
            return Err(ParserError::NoSemicolon(after.duplicate()));
        }
        Err(ParserError::UndisclosedDelimiter(self.peek().duplicate()))
    }

    /// An expression. When `goal` is given, the tokens from here read as an
    /// expression that ends there, and the parse is owed to reach it.
    fn expression(&mut self, Ghost(goal): Ghost<Option<int>>) -> (r: Result<Expression<N>, ParserError<N>>)
        requires
            old(self).wf(),
            goal is Some ==> expression_at(old(self).tokens@, old(self).current as int, goal->0, 0),
        ensures
            expr_parsed(*old(self), *final(self), r, 0),
            goal is Some ==> r is Ok && final(self).current == goal->0,
            goal is None && (exists|q: int| bad_target(old(self).tokens@, old(self).current as int, q)) ==> exists|q: int|
                bad_target(old(self).tokens@, old(self).current as int, q) && r == Err::<Expression<N>, ParserError<N>>(
                    ParserError::InvalidAssignmentTarget(old(self).tokens@[q]),
                ),
        decreases old(self).tokens@.len() - old(self).current, 8int,
    {
        self.assignment(Ghost(goal))
    }

    /// Parses a whole program, stopping at the first syntax error. When the
    /// tokens read as statements up to the end of input, the parse succeeds.
    pub fn parse(&mut self) -> (r: Result<Vec<Statement<N>>, ParserError<N>>)
        requires
            old(self).wf(),
        ensures
            final(self).wf(),
            final(self).tokens == old(self).tokens,
            old(self).next_kind() == TokenType::Eof ==> r is Ok && r->Ok_0@.len() == 0,
            (exists|k: int| statements_at(old(self).tokens@, old(self).current as int, k, TokenType::Eof)) ==> r is Ok,
            r is Err ==> exists|c: int|
                #[trigger] first_failure(old(self).tokens@, old(self).current as int, c) && (known_failure(
                    old(self).tokens@,
                    c,
                ) ==> declaration_error(old(self).tokens@, c, r->Err_0)),
            r is Ok ==> {
                &&& final(self).next_kind() == TokenType::Eof
                &&& list_ok(r->Ok_0@)
                &&& list_syms(r->Ok_0@) == old(self).syms_between(old(self).current as int, final(self).current as int)
            },
    {
        let ghost start = self.current as int;
        let ghost ts = self.tokens@;
        let ghost has_goal = exists|k: int| statements_at(ts, start, k, TokenType::Eof);
        let ghost k = choose|k: int| statements_at(ts, start, k, TokenType::Eof);
        let ghost ss = choose|ss: Seq<Statement<N>>| list_reads_as(ts, start, k, ss, TokenType::Eof);
        let ghost mut i: int = 0;
        let mut statements: Vec<Statement<N>> = Vec::new();
        proof {
            if has_goal {
                assert(ss.subrange(0, 0) =~= Seq::<Statement<N>>::empty());
            }
        }
        while !self.is_at_end()
            invariant
                self.wf(),
                self.tokens == old(self).tokens,
                ts == self.tokens@,
                start == old(self).current,
                start <= self.current,
                list_ok(statements@),
                list_syms(statements@) == self.syms_between(start, self.current as int),
                old(self).next_kind() == TokenType::Eof ==> self.current == start && statements@.len() == 0,
                has_goal == (exists|k: int| statements_at(ts, start, k, TokenType::Eof)),
                has_goal ==> list_reads_as(ts, start, k, ss, TokenType::Eof),
                has_goal ==> 0 <= i <= ss.len(),
                has_goal ==> self.current == start + list_syms(ss.subrange(0, i)).len(),
            decreases self.tokens@.len() - self.current,
        {
            let ghost c1 = self.current as int;
            let ghost before = statements@;
            let ghost goal: Option<int> = if has_goal {
                Some(c1 + stmt_syms(ss[i]).len())
            } else if exists|q: int| statement_at(ts, c1, q) {
                Some(choose|q: int| statement_at(ts, c1, q))
            } else {
                None
            };
            proof {
                assert(statements_upto(ts, start, c1)) by {
                    assert(list_ok(statements@) && list_syms(statements@) == token_syms(views(ts.subrange(start, c1))));
                }
            }
            proof {
                if has_goal {
                    if i == ss.len() {
                        assert(ss.subrange(0, i) =~= ss);
                        assert(false);
                    }
                    lemma_list_syms_split(ss, i);
                    let n = list_syms(ss.subrange(0, i)).len() as int;
                    let m = list_syms(ss.subrange(0, i + 1)).len() as int;
                    lemma_syms_part(ts, start, k, n, m);
                    let whole = list_syms(ss);
                    let head = list_syms(ss.subrange(0, i));
                    assert(whole.subrange(n, m) =~= whole.subrange(0, m).subrange(n, m));
                    assert((head + stmt_syms(ss[i])).subrange(n, m) =~= stmt_syms(ss[i]));
                    assert(stmt_syms(ss[i]) =~= list_syms(ss).subrange(n, m));
                    assert(stmt_reads_as(ts, c1, c1 + stmt_syms(ss[i]).len(), ss[i]));
                }
            }
            let s = match self.declaration(Ghost(goal)) {
                Ok(s) => s,
                Err(e) => {
                    assert(first_failure(ts, start, c1));
                    assert(known_failure(ts, c1) ==> declaration_error(ts, c1, e));
                    return Err(e);
                },
            };
            statements.push(s);
            proof {
                assert(statements@.drop_last() =~= before);
                lemma_syms_join(self.tokens@, start, c1, self.current as int);
                if has_goal {
                    i = i + 1;
                }
            }
            assert(self.current > c1) by {
                if self.current == c1 {
                    assert(self.syms_between(c1, c1) =~= Seq::<Sym<N>>::empty());
                    lemma_stmt_syms_nonempty(statements@.last());
                }
            }
        }
        Ok(statements)
    }

    /// Parses one expression. When the tokens start with an expression that
    /// a token which cannot continue it follows, the parse succeeds.
    pub fn parse_single_expr(&mut self) -> (r: Result<Expression<N>, ParserError<N>>)
        requires
            old(self).wf(),
        ensures
            expr_parsed(*old(self), *final(self), r, 0),
            (exists|q: int| expression_at(old(self).tokens@, old(self).current as int, q, 0)) ==> r is Ok,
            r is Err && (exists|q: int| bad_target(old(self).tokens@, old(self).current as int, q)) ==> exists|q: int|
                bad_target(old(self).tokens@, old(self).current as int, q) && r == Err::<Expression<N>, ParserError<N>>(
                    ParserError::InvalidAssignmentTarget(old(self).tokens@[q]),
                ),
    {
        let ghost goal: Option<int> = if exists|q: int| expression_at(self.tokens@, self.current as int, q, 0) {
            Some(choose|q: int| expression_at(self.tokens@, self.current as int, q, 0))
        } else {
            None
        };
        self.expression(Ghost(goal))
    }

    /// `declaration → "var" varDecl | statement`. After an error in a
    /// statement the parser skips to the next statement boundary. When
    /// `goal` is given, the tokens from here read as a statement that ends
    /// there, and the parse is owed to reach it.
    fn declaration(&mut self, Ghost(goal): Ghost<Option<int>>) -> (r: Result<Statement<N>, ParserError<N>>)
        requires
            old(self).wf(),
            goal is Some ==> statement_at(old(self).tokens@, old(self).current as int, goal->0),
        ensures
            stmt_parsed(*old(self), *final(self), r),
            goal is Some ==> r is Ok && final(self).current == goal->0,
            goal is None && known_failure(old(self).tokens@, old(self).current as int) ==> r is Err
                && declaration_error(old(self).tokens@, old(self).current as int, r->Err_0),
        decreases old(self).tokens@.len() - old(self).current, 2int,
    {
        let ghost start = self.current as int;
        let ghost ts = self.tokens@;
        let ghost q = goal->0;
        let ghost st = choose|st: Statement<N>| stmt_reads_as(ts, start, q, st);
        proof {
            if goal is Some {
                lemma_stmt_first(st);
                assert(stmt_syms(st)[0] == token_syms(views(ts.subrange(start, q)))[0]);
            }
        }
        if self.match_tokens(&[TokenType::Var]) {
            let r = self.var_declaration(Ghost(goal));
            proof {
                if r is Ok {
                    lemma_syms_one(self.tokens@, start);
                    lemma_syms_join(self.tokens@, start, start + 1, self.current as int);
                    assert(stmt_syms(r->Ok_0) =~= self.syms_between(start, self.current as int));
                }
                if goal is None && known_failure(ts, start) {
                    let c = start;
                    assert(c + 1 + 2 == c + 3);
                    if ts[c + 1].token_type == TokenType::Identifier && c + 2 < ts.len() && ts[c + 2].token_type
                        == TokenType::Equal && unterminated_from(ts, c + 3) {
                        let q0 = choose|q: int| #[trigger] unterminated(ts, c + 3, q);
                        assert(unterminated(ts, c + 1 + 2, q0));
                        let q1 = choose|q: int|
                            #[trigger] unterminated(ts, c + 1 + 2, q) && r == Err::<Statement<N>, ParserError<N>>(
                                ParserError::NoSemicolon(ts[q - 1]),
                            );
                        assert(unterminated(ts, c + 3, q1));
                    }
                }
            }
            return r;
        }
        match self.statement(Ghost(goal)) {
            Ok(stmt) => Ok(stmt),
            Err(e) => {
                self.synchronize();
                Err(e)
            },
        }
    }

    /// The rest of a variable declaration, after `var`: the statement is
    /// returned whole, its symbols those after `var`.
    fn var_declaration(&mut self, Ghost(goal): Ghost<Option<int>>) -> (r: Result<Statement<N>, ParserError<N>>)
        requires
            old(self).wf(),
            old(self).current > 0,
            old(self).tokens@[old(self).current - 1].token_type == TokenType::Var,
            goal is Some ==> statement_at(old(self).tokens@, old(self).current - 1, goal->0),
        ensures
            final(self).wf(),
            final(self).tokens == old(self).tokens,
            old(self).current <= final(self).current,
            r is Ok ==> stmt_ok(r->Ok_0) && stmt_syms(r->Ok_0) == old(self).syms_between(
                old(self).current - 1,
                final(self).current as int,
            ),
            goal is Some ==> r is Ok && final(self).current == goal->0,
            old(self).next_kind() != TokenType::Identifier ==> r == Err::<Statement<N>, ParserError<N>>(
                ParserError::UndisclosedDelimiter(old(self).tokens@[old(self).current as int]),
            ),
            goal is None && old(self).next_kind() == TokenType::Identifier && old(self).current + 1 < old(self).tokens@.len()
                && old(self).tokens@[old(self).current + 1].token_type != TokenType::Equal
                && old(self).tokens@[old(self).current + 1].token_type != TokenType::Semicolon
                ==> r == Err::<Statement<N>, ParserError<N>>(
                ParserError::NoSemicolon(old(self).tokens@[old(self).current as int]),
            ),
            goal is None && old(self).next_kind() == TokenType::Identifier && old(self).current + 1 < old(self).tokens@.len()
                && old(self).tokens@[old(self).current + 1].token_type == TokenType::Equal
                && (exists|q: int| #[trigger] unterminated(old(self).tokens@, old(self).current + 2, q)) ==> exists|q: int|
                #[trigger] unterminated(old(self).tokens@, old(self).current + 2, q) && r == Err::<Statement<N>, ParserError<N>>(
                    ParserError::NoSemicolon(old(self).tokens@[q - 1]),
                ),
    {
        let ghost start = self.current as int;
        let ghost ts = self.tokens@;
        let ghost q = goal->0;
        let ghost p0 = start - 1;
        let ghost p2 = start + 2;
        let ghost st = choose|st: Statement<N>| stmt_reads_as(ts, p0, q, st);
        proof {
            if goal is Some {
                lemma_stmt_first(st);
                lemma_syms_one(ts, start - 1);
                assert(stmt_syms(st)[0] == token_syms(views(ts.subrange(start - 1, q)))[0]);
                let v = st->Var_0;
                let n = q - (start - 1);
                assert(stmt_syms(st)[1] == token_syms(views(ts.subrange(start - 1, q)))[1]);
                assert(stmt_syms(st)[n - 1] == token_syms(views(ts.subrange(start - 1, q)))[n - 1]);
                match v.initializer {
                    Some(e) => {
                        assert(stmt_syms(st)[2] == token_syms(views(ts.subrange(start - 1, q)))[2]);
                        assert(stmt_syms(st) == seq![Sym::Kind(TokenType::Var), token_sym(v.name@)] + (seq![
                            Sym::Kind(TokenType::Equal)] + expr_syms(e)) + seq![Sym::Kind(TokenType::Semicolon)]);
                        lemma_syms_part(ts, start - 1, q, 3, n - 1);
                        assert(expr_syms(e) =~= stmt_syms(st).subrange(3, n - 1));
                        assert(reads_as(ts, start + 2, q - 1, e, 0));
                    },
                    None => {
                        assert(stmt_syms(st) =~= seq![Sym::Kind(TokenType::Var), token_sym(v.name@), Sym::Kind(TokenType::Semicolon)]);
                    },
                }
            }
        }
        let name = self.consume(TokenType::Identifier)?;
        let mut initializer: Option<Expression<N>> = None;
        let ghost c1 = self.current as int;
        if self.match_tokens(&[TokenType::Equal]) {
            let ghost init_goal: Option<int> = if goal is Some {
                Some(q - 1)
            } else if exists|q: int| unterminated(ts, p2, q) {
                Some(choose|q: int| unterminated(ts, p2, q))
            } else {
                None
            };
            initializer = Some(self.expression(Ghost(init_goal))?);
        }
        let ghost c2 = self.current as int;
        self.consume(TokenType::Semicolon)?;
        let r = Statement::Var(VarStmt::new(name, initializer));
        proof {
            let ts = self.tokens@;
            lemma_syms_one(ts, start - 1);
            lemma_syms_one(ts, start);
            lemma_syms_one(ts, c2);
            lemma_syms_join(ts, start - 1, start, start + 1);
            if c2 > c1 {
                lemma_syms_one(ts, c1);
                lemma_syms_join(ts, c1, c1 + 1, c2);
                lemma_syms_join(ts, start - 1, c1, c2);
            } else {
                assert(self.syms_between(c1, c2) =~= Seq::<Sym<N>>::empty());
            }
            lemma_syms_join(ts, start - 1, c2, c2 + 1);
            assert(stmt_syms(r) =~= self.syms_between(start - 1, self.current as int));
        }
        Ok(r)
    }

    /// `statement → "print" printStmt | "{" block | exprStmt`.
    fn statement(&mut self, Ghost(goal): Ghost<Option<int>>) -> (r: Result<Statement<N>, ParserError<N>>)
        requires
            old(self).wf(),
            goal is Some ==> statement_at(old(self).tokens@, old(self).current as int, goal->0)
                && old(self).next_kind() != TokenType::Var,
        ensures
            stmt_parsed(*old(self), *final(self), r),
            goal is Some ==> r is Ok && final(self).current == goal->0,
            goal is None && old(self).next_kind() != TokenType::Var && known_failure(old(self).tokens@, old(self).current as int) ==> r is Err
                && declaration_error(old(self).tokens@, old(self).current as int, r->Err_0),
        decreases old(self).tokens@.len() - old(self).current, 1int,
    {
        let ghost start = self.current as int;
        let ghost ts = self.tokens@;
        let ghost q = goal->0;
        let ghost st = choose|st: Statement<N>| stmt_reads_as(ts, start, q, st);
        let ghost inner_goal: Option<int> = if goal is Some {
            Some(q)
        } else {
            None
        };
        proof {
            lemma_syms_one(self.tokens@, start);
            if goal is Some {
                lemma_stmt_first(st);
                let n = q - start;
                assert(stmt_syms(st)[0] == token_syms(views(ts.subrange(start, q)))[0]);
                assert(stmt_syms(st)[n - 1] == token_syms(views(ts.subrange(start, q)))[n - 1]);
                match st {
                    Statement::Print(p) => {
                        assert(stmt_syms(st) == seq![Sym::Kind(TokenType::Print)] + expr_syms(p.value) + seq![Sym::Kind(TokenType::Semicolon)]);
                        lemma_syms_part(ts, start, q, 1, n - 1);
                        assert(expr_syms(p.value) =~= stmt_syms(st).subrange(1, n - 1));
                        assert(reads_as(ts, start + 1, q - 1, p.value, 0));
                    },
                    Statement::Block(b) => {
                        assert(stmt_syms(st) == seq![Sym::Kind(TokenType::LeftBrace)] + list_syms(b.stmts@) + seq![Sym::Kind(TokenType::RightBrace)]);
                        lemma_syms_part(ts, start, q, 1, n - 1);
                        assert(list_syms(b.stmts@) =~= stmt_syms(st).subrange(1, n - 1));
                        assert(list_reads_as(ts, start + 1, q - 1, b.stmts@, TokenType::RightBrace));
                    },
                    Statement::Expression(e) => {
                        assert(stmt_syms(st) == expr_syms(e.value) + seq![Sym::Kind(TokenType::Semicolon)]);
                        lemma_syms_part(ts, start, q, 0, n - 1);
                        assert(expr_syms(e.value) =~= stmt_syms(st).subrange(0, n - 1));
                        assert(reads_as(ts, start, q - 1, e.value, 0));
                    },
                    _ => {},
                }
            }
        }
        if self.match_tokens(&[TokenType::Print]) {
            let r = self.print_statement(Ghost(inner_goal))?;
            proof {
                lemma_syms_join(self.tokens@, start, start + 1, self.current as int);
                assert(stmt_syms(r) =~= self.syms_between(start, self.current as int));
            }
            return Ok(r);
        }
        if self.match_tokens(&[TokenType::LeftBrace]) {
            let r = self.block(Ghost(inner_goal))?;
            proof {
                lemma_syms_join(self.tokens@, start, start + 1, self.current as int);
                assert(stmt_syms(r) =~= self.syms_between(start, self.current as int));
            }
            return Ok(r);
        }
        self.expression_statement(Ghost(inner_goal))
    }

    /// The statements of a block up to its closing brace, after `{`; the
    /// symbols are those after the opening brace. When `goal` is given, the
    /// tokens from here read as statements up to a `}` just before it.
    fn block(&mut self, Ghost(goal): Ghost<Option<int>>) -> (r: Result<Statement<N>, ParserError<N>>)
        requires
            old(self).wf(),
            goal is Some ==> statements_at(old(self).tokens@, old(self).current as int, goal->0 - 1, TokenType::RightBrace),
        ensures
            final(self).wf(),
            final(self).tokens == old(self).tokens,
            old(self).current <= final(self).current,
            r is Ok ==> r->Ok_0 is Block && stmt_ok(r->Ok_0) && seq![Sym::Kind(TokenType::LeftBrace)]
                + old(self).syms_between(old(self).current as int, final(self).current as int)
                == stmt_syms(r->Ok_0),
            goal is Some ==> r is Ok && final(self).current == goal->0,
        decreases old(self).tokens@.len() - old(self).current, 3int,
    {
        let ghost start = self.current as int;
        let ghost ts = self.tokens@;
        let ghost has_goal = goal is Some;
        let ghost k = goal->0 - 1;
        let ghost ss = choose|ss: Seq<Statement<N>>| list_reads_as(ts, start, k, ss, TokenType::RightBrace);
        let ghost mut i: int = 0;
        let mut stmts: Vec<Statement<N>> = Vec::new();
        proof {
            if has_goal {
                assert(ss.subrange(0, 0) =~= Seq::<Statement<N>>::empty());
            }
        }
        loop
            invariant
                self.wf(),
                self.tokens == old(self).tokens,
                ts == self.tokens@,
                start == old(self).current,
                start <= self.current,
                list_ok(stmts@),
                list_syms(stmts@) == self.syms_between(start, self.current as int),
                has_goal == (goal is Some),
                has_goal ==> list_reads_as(ts, start, k, ss, TokenType::RightBrace),
                has_goal ==> 0 <= i <= ss.len(),
                has_goal ==> self.current == start + list_syms(ss.subrange(0, i)).len(),
            ensures
                self.wf(),
                self.tokens == old(self).tokens,
                start <= self.current,
                list_ok(stmts@),
                list_syms(stmts@) == self.syms_between(start, self.current as int),
                has_goal ==> self.current == k,
            decreases self.tokens@.len() - self.current,
        {
            let ghost c1 = self.current as int;
            proof {
                if has_goal {
                    if i == ss.len() {
                        assert(ss.subrange(0, i) =~= ss);
                    } else {
                        lemma_list_syms_split(ss, i);
                        let n = list_syms(ss.subrange(0, i)).len() as int;
                        let m = list_syms(ss.subrange(0, i + 1)).len() as int;
                        lemma_syms_part(ts, start, k, n, m);
                        let whole = list_syms(ss);
                        let head = list_syms(ss.subrange(0, i));
                        assert(whole.subrange(n, m) =~= whole.subrange(0, m).subrange(n, m));
                        assert((head + stmt_syms(ss[i])).subrange(n, m) =~= stmt_syms(ss[i]));
                        let whole = list_syms(ss);
                    let head = list_syms(ss.subrange(0, i));
                    assert(whole.subrange(n, m) =~= whole.subrange(0, m).subrange(n, m));
                    assert((head + stmt_syms(ss[i])).subrange(n, m) =~= stmt_syms(ss[i]));
                    assert(stmt_syms(ss[i]) =~= list_syms(ss).subrange(n, m));
                        lemma_stmt_first(ss[i]);
                        assert(stmt_syms(ss[i])[0] == token_syms(views(ts.subrange(c1, c1 + stmt_syms(ss[i]).len())))[0]);
                    }
                }
            }
            if self.check(TokenType::RightBrace) || self.is_at_end() {
                break;
            }
            let ghost before = stmts@;
            let ghost decl_goal: Option<int> = if has_goal {
                Some(c1 + stmt_syms(ss[i]).len())
            } else {
                None
            };
            proof {
                if has_goal {
                    assert(stmt_reads_as(ts, c1, c1 + stmt_syms(ss[i]).len(), ss[i]));
                }
            }
            let s = self.declaration(Ghost(decl_goal))?;
            stmts.push(s);
            proof {
                assert(stmts@.drop_last() =~= before);
                lemma_syms_join(self.tokens@, start, c1, self.current as int);
                if has_goal {
                    i = i + 1;
                }
            }
            assert(self.current > c1) by {
                if self.current == c1 {
                    assert(self.syms_between(c1, c1) =~= Seq::<Sym<N>>::empty());
                    lemma_stmt_syms_nonempty(stmts@.last());
                }
            }
        }
        let ghost c2 = self.current as int;
        self.consume(TokenType::RightBrace)?;
        proof {
            lemma_syms_one(self.tokens@, c2);
            lemma_syms_join(self.tokens@, start, c2, c2 + 1);
        }
        let r = Statement::Block(BlockStmt::new(stmts));
        assert(stmt_syms(r) =~= seq![Sym::Kind(TokenType::LeftBrace)] + self.syms_between(start, self.current as int));
        Ok(r)
    }

    /// An expression, then `;`; after `print` has been consumed, the symbols
    /// are those after it.
    fn print_statement(&mut self, Ghost(goal): Ghost<Option<int>>) -> (r: Result<Statement<N>, ParserError<N>>)
        requires
            old(self).wf(),
            goal is Some ==> expression_at(old(self).tokens@, old(self).current as int, goal->0 - 1, 0)
                && old(self).tokens@[goal->0 - 1].token_type == TokenType::Semicolon,
        ensures
            final(self).wf(),
            final(self).tokens == old(self).tokens,
            old(self).current <= final(self).current,
            r is Ok ==> r->Ok_0 is Print && stmt_ok(r->Ok_0) && seq![Sym::Kind(TokenType::Print)]
                + old(self).syms_between(old(self).current as int, final(self).current as int)
                == stmt_syms(r->Ok_0),
            goal is Some ==> r is Ok && final(self).current == goal->0,
            goal is None && (exists|q: int| unterminated(old(self).tokens@, old(self).current as int, q)) ==> exists|q: int|
                unterminated(old(self).tokens@, old(self).current as int, q) && r == Err::<Statement<N>, ParserError<N>>(
                    ParserError::NoSemicolon(old(self).tokens@[q - 1]),
                ),
    {
        let ghost start = self.current as int;
        let ghost value_goal: Option<int> = if goal is Some {
            Some(goal->0 - 1)
        } else if exists|q: int| unterminated(self.tokens@, start, q) {
            Some(choose|q: int| unterminated(self.tokens@, start, q))
        } else {
            None
        };
        let value = self.expression(Ghost(value_goal))?;
        let ghost c1 = self.current as int;
        self.consume(TokenType::Semicolon)?;
        proof {
            lemma_syms_one(self.tokens@, c1);
            lemma_syms_join(self.tokens@, start, c1, c1 + 1);
        }
        let r = Statement::Print(PrintStmt::new(value));
        assert(stmt_syms(r) =~= seq![Sym::Kind(TokenType::Print)] + self.syms_between(start, self.current as int));
        Ok(r)
    }

    /// An expression, then `;`.
    fn expression_statement(&mut self, Ghost(goal): Ghost<Option<int>>) -> (r: Result<Statement<N>, ParserError<N>>)
        requires
            old(self).wf(),
            goal is Some ==> expression_at(old(self).tokens@, old(self).current as int, goal->0 - 1, 0)
                && old(self).tokens@[goal->0 - 1].token_type == TokenType::Semicolon,
        ensures
            stmt_parsed(*old(self), *final(self), r),
            goal is Some ==> r is Ok && final(self).current == goal->0,
            !can_start_expression(old(self).next_kind()) ==> r == Err::<Statement<N>, ParserError<N>>(
                ParserError::UnexpectedToken(old(self).tokens@[old(self).current as int]),
            ),
            goal is None && (exists|q: int| unterminated(old(self).tokens@, old(self).current as int, q)) ==> exists|q: int|
                unterminated(old(self).tokens@, old(self).current as int, q) && r == Err::<Statement<N>, ParserError<N>>(
                    ParserError::NoSemicolon(old(self).tokens@[q - 1]),
                ),
    {
        let ghost start = self.current as int;
        let ghost value_goal: Option<int> = if goal is Some {
            Some(goal->0 - 1)
        } else if exists|q: int| unterminated(self.tokens@, start, q) {
            Some(choose|q: int| unterminated(self.tokens@, start, q))
        } else {
            None
        };
        let value = self.expression(Ghost(value_goal))?;
        let ghost c1 = self.current as int;
        self.consume(TokenType::Semicolon)?;
        proof {
            lemma_syms_one(self.tokens@, c1);
            lemma_syms_join(self.tokens@, start, c1, c1 + 1);
        }
        let r = Statement::Expression(ExpressionStmt::new(value));
        assert(stmt_syms(r) =~= self.syms_between(start, self.current as int));
        Ok(r)
    }

    /// Skips tokens up to a statement boundary: at least one token is
    /// skipped (unless the input has ended), and the parser stops at the first
    /// position after that which is a boundary (`sync_boundary`).
    fn synchronize(&mut self)
        requires
            old(self).wf(),
        ensures
            final(self).wf(),
            final(self).tokens == old(self).tokens,
            old(self).next_kind() == TokenType::Eof ==> final(self).current == old(self).current,
            old(self).next_kind() != TokenType::Eof ==> {
                &&& old(self).current < final(self).current
                &&& sync_boundary(final(self).tokens@, final(self).current as int)
                &&& forall|i: int|
                    old(self).current < i < final(self).current ==> !#[trigger] sync_boundary(final(self).tokens@, i)
            },
    {
        self.advance();
        while !self.is_at_end()
            invariant
                self.wf(),
                self.tokens == old(self).tokens,
                old(self).next_kind() == TokenType::Eof ==> self.current == old(self).current,
                old(self).next_kind() != TokenType::Eof ==> old(self).current < self.current,
                forall|i: int| old(self).current < i < self.current ==> !#[trigger] sync_boundary(self.tokens@, i),
            decreases self.tokens@.len() - self.current,
        {
            if self.current > 0 && self.previous().token_type == TokenType::Semicolon {
                return;
            }
            match self.peek().token_type {
                TokenType::Class | TokenType::Fun | TokenType::Var | TokenType::For | TokenType::If
                | TokenType::While | TokenType::Print | TokenType::Return => {
                    return;
                },
                _ => {},
            }
            let ghost c = self.current as int;
            assert(!sync_boundary(self.tokens@, c));
            self.advance();
        }
    }

    /// `assignment → equality ( "=" assignment )?`; the target must be a variable.
    fn assignment(&mut self, Ghost(goal): Ghost<Option<int>>) -> (r: Result<Expression<N>, ParserError<N>>)
        requires
            old(self).wf(),
            goal is Some ==> expression_at(old(self).tokens@, old(self).current as int, goal->0, 0),
        ensures
            expr_parsed(*old(self), *final(self), r, 0),
            goal is Some ==> r is Ok && final(self).current == goal->0,
            goal is None && (exists|q: int| bad_target(old(self).tokens@, old(self).current as int, q)) ==> exists|q: int|
                bad_target(old(self).tokens@, old(self).current as int, q) && r == Err::<Expression<N>, ParserError<N>>(
                    ParserError::InvalidAssignmentTarget(old(self).tokens@[q]),
                ),
        decreases old(self).tokens@.len() - old(self).current, 7int,
    {
        let ghost start = self.current as int;
        let ghost ts = self.tokens@;
        let ghost q = goal->0;
        let ghost e = choose|e: Expression<N>| reads_as(ts, start, q, e, 0);
        let ghost bad = exists|q: int| bad_target(ts, start, q);
        let ghost qb = choose|q: int| bad_target(ts, start, q);
        let ghost first_goal: Option<int> = if goal is Some {
            if e is Assign {
                Some(start + 1)
            } else {
                Some(q)
            }
        } else if bad {
            Some(qb)
        } else {
            None
        };
        proof {
            if goal is Some {
                lemma_syms_nonempty(e);
                if let Expression::Assign(a) = e {
                    let v = Expression::Variable(VariableExpr { name: a.name });
                    assert(expr_syms(e)[0] == token_syms(views(ts.subrange(start, q)))[0]);
                    assert(expr_syms(e)[1] == token_syms(views(ts.subrange(start, q)))[1]);
                    lemma_syms_one(ts, start);
                    assert(expr_syms(v) =~= token_syms(views(ts.subrange(start, start + 1))));
                    assert(reads_as(ts, start, start + 1, v, 1));
                } else {
                    assert(reads_as(ts, start, q, e, 1));
                }
            }
        }
        let expr = self.equality(Ghost(first_goal))?;
        let ghost c1 = self.current as int;
        if self.match_tokens(&[TokenType::Equal]) {
            let equals = self.previous().duplicate();
            let ghost value_goal: Option<int> = if goal is Some {
                Some(q)
            } else if bad {
                let qv = qb + 1;
                Some(choose|q2: int| expression_at(ts, qv, q2, 0))
            } else {
                None
            };
            proof {
                if goal is Some {
                    let a = e->Assign_0;
                    lemma_syms_part(ts, start, q, 2, q - start);
                    assert(expr_syms(*a.value) =~= expr_syms(e).subrange(2, q - start));
                    assert(reads_as(ts, start + 2, q, *a.value, 0));
                }
            }
            let value = self.assignment(Ghost(value_goal))?;
            proof {
                lemma_syms_one(self.tokens@, c1);
                lemma_syms_join(self.tokens@, start, c1, c1 + 1);
                lemma_syms_join(self.tokens@, start, c1 + 1, self.current as int);
                if goal is Some {
                    lemma_single_name(expr);
                }
            }
            match expr {
                Expression::Variable(v) => {
                    proof {
                        if goal is None && bad {
                            assert(expr_syms(expr) == seq![token_sym(v.name@)]);
                            assert(self.syms_between(start, c1).len() == c1 - start);
                            lemma_syms_one(ts, start);
                            assert(self.syms_between(start, c1)[0] == token_sym(ts[start]@));
                            assert(c1 == start + 1);
                            assert(ts[start].token_type == TokenType::Identifier);
                        }
                    }
                    let r = Expression::Assign(AssignExpr::new(v.name, Box::new(value)));
                    proof {
                        assert(expr_syms(r) =~= self.syms_between(start, self.current as int));
                    }
                    return Ok(r);
                },
                _ => {
                    return Err(ParserError::InvalidAssignmentTarget(equals));
                },
            }
        }
        proof {
            lemma_fits_lower(expr, 1, 0);
        }
        Ok(expr)
    }

    /// One level of left-associative binary operators.
    fn equality(&mut self, Ghost(goal): Ghost<Option<int>>) -> (r: Result<Expression<N>, ParserError<N>>)
        requires
            old(self).wf(),
            goal is Some ==> expression_at(old(self).tokens@, old(self).current as int, goal->0, 1),
        ensures
            expr_parsed(*old(self), *final(self), r, 1),
            goal is Some ==> r is Ok && final(self).current == goal->0,
        decreases old(self).tokens@.len() - old(self).current, 6int,
    {
        let ghost start = self.current as int;
        let ghost ts = self.tokens@;
        let ghost q = goal->0;
        let ghost e = choose|e: Expression<N>| reads_as(ts, start, q, e, 1);
        let ghost mut node = spine_bottom(e, 1);
        let ghost first_goal: Option<int> = if goal is Some {
            Some(start + expr_syms(node).len())
        } else {
            None
        };
        proof {
            if goal is Some {
                lemma_spine_bottom(e, 1);
                lemma_spine_next(ts, start, q, e, node, 1);
                assert(reads_as(ts, start, start + expr_syms(node).len(), node, 2));
            }
        }
        let mut expr = self.comparison(Ghost(first_goal))?;
        proof {
            lemma_fits_lower(expr, 2, 1);
        }
        loop
            invariant
                self.wf(),
                self.tokens == old(self).tokens,
                ts == self.tokens@,
                start == old(self).current,
                start <= self.current,
                fits(expr, 1),
                expr_syms(expr) == self.syms_between(start, self.current as int),
                can_start_expression(old(self).next_kind()),
                stops(self.next_kind(), 2),
                goal is Some ==> reads_as(ts, start, q, e, 1),
                goal is Some ==> on_spine(e, node, 1),
                goal is Some ==> self.current == start + expr_syms(node).len(),
            ensures
                self.wf(),
                self.tokens == old(self).tokens,
                start <= self.current,
                fits(expr, 1),
                expr_syms(expr) == self.syms_between(start, self.current as int),
                can_start_expression(old(self).next_kind()),
                stops(self.next_kind(), 1),
                goal is Some ==> self.current == q,
            decreases self.tokens@.len() - self.current,
        {
            let ghost c1 = self.current as int;
            proof {
                if goal is Some {
                    lemma_spine_next(ts, start, q, e, node, 1);
                }
            }
            let ops = [TokenType::BangEqual, TokenType::EqualEqual];
            if !self.match_tokens(&ops) {
                break;
            }
            let operator = self.previous().duplicate();
            assert(binary_level(operator.token_type) == 1);
            let ghost right_goal: Option<int> = if goal is Some {
                Some(start + expr_syms(spine_parent(e, node)).len())
            } else {
                None
            };
            proof {
                if goal is Some {
                    lemma_spine_parent(e, node, 1);
                    let par = spine_parent(e, node);
                    lemma_spine_prefix(e, par, 1);
                    lemma_spine_next(ts, start, q, e, par, 1);
                    let pb = par->Binary_0;
                    let n = expr_syms(node).len() as int;
                    let m = expr_syms(par).len() as int;
                    assert(expr_syms(par) == expr_syms(node) + seq![token_sym(pb.operator@)] + expr_syms(*pb.right));
                    lemma_syms_part(ts, start, start + m, n + 1, m);
                    assert(expr_syms(*pb.right) =~= expr_syms(par).subrange(n + 1, m));
                    assert(reads_as(ts, c1 + 1, start + m, *pb.right, 2));
                }
            }
            let right = self.comparison(Ghost(right_goal))?;
            proof {
                lemma_syms_one(self.tokens@, c1);
                lemma_syms_join(self.tokens@, start, c1, c1 + 1);
                lemma_syms_join(self.tokens@, start, c1 + 1, self.current as int);
                if goal is Some {
                    node = spine_parent(e, node);
                }
            }
            expr = Expression::Binary(BinaryExpr::new(Box::new(expr), operator, Box::new(right)));
        }
        Ok(expr)
    }

    /// One level of left-associative binary operators.
    fn comparison(&mut self, Ghost(goal): Ghost<Option<int>>) -> (r: Result<Expression<N>, ParserError<N>>)
        requires
            old(self).wf(),
            goal is Some ==> expression_at(old(self).tokens@, old(self).current as int, goal->0, 2),
        ensures
            expr_parsed(*old(self), *final(self), r, 2),
            goal is Some ==> r is Ok && final(self).current == goal->0,
        decreases old(self).tokens@.len() - old(self).current, 5int,
    {
        let ghost start = self.current as int;
        let ghost ts = self.tokens@;
        let ghost q = goal->0;
        let ghost e = choose|e: Expression<N>| reads_as(ts, start, q, e, 2);
        let ghost mut node = spine_bottom(e, 2);
        let ghost first_goal: Option<int> = if goal is Some {
            Some(start + expr_syms(node).len())
        } else {
            None
        };
        proof {
            if goal is Some {
                lemma_spine_bottom(e, 2);
                lemma_spine_next(ts, start, q, e, node, 2);
                assert(reads_as(ts, start, start + expr_syms(node).len(), node, 3));
            }
        }
        let mut expr = self.term(Ghost(first_goal))?;
        proof {
            lemma_fits_lower(expr, 3, 2);
        }
        loop
            invariant
                self.wf(),
                self.tokens == old(self).tokens,
                ts == self.tokens@,
                start == old(self).current,
                start <= self.current,
                fits(expr, 2),
                expr_syms(expr) == self.syms_between(start, self.current as int),
                can_start_expression(old(self).next_kind()),
                stops(self.next_kind(), 3),
                goal is Some ==> reads_as(ts, start, q, e, 2),
                goal is Some ==> on_spine(e, node, 2),
                goal is Some ==> self.current == start + expr_syms(node).len(),
            ensures
                self.wf(),
                self.tokens == old(self).tokens,
                start <= self.current,
                fits(expr, 2),
                expr_syms(expr) == self.syms_between(start, self.current as int),
                can_start_expression(old(self).next_kind()),
                stops(self.next_kind(), 2),
                goal is Some ==> self.current == q,
            decreases self.tokens@.len() - self.current,
        {
            let ghost c1 = self.current as int;
            proof {
                if goal is Some {
                    lemma_spine_next(ts, start, q, e, node, 2);
                }
            }
            let ops = [TokenType::Greater, TokenType::GreaterEqual, TokenType::Less, TokenType::LessEqual];
            if !self.match_tokens(&ops) {
                break;
            }
            let operator = self.previous().duplicate();
            assert(binary_level(operator.token_type) == 2);
            let ghost right_goal: Option<int> = if goal is Some {
                Some(start + expr_syms(spine_parent(e, node)).len())
            } else {
                None
            };
            proof {
                if goal is Some {
                    lemma_spine_parent(e, node, 2);
                    let par = spine_parent(e, node);
                    lemma_spine_prefix(e, par, 2);
                    lemma_spine_next(ts, start, q, e, par, 2);
                    let pb = par->Binary_0;
                    let n = expr_syms(node).len() as int;
                    let m = expr_syms(par).len() as int;
                    assert(expr_syms(par) == expr_syms(node) + seq![token_sym(pb.operator@)] + expr_syms(*pb.right));
                    lemma_syms_part(ts, start, start + m, n + 1, m);
                    assert(expr_syms(*pb.right) =~= expr_syms(par).subrange(n + 1, m));
                    assert(reads_as(ts, c1 + 1, start + m, *pb.right, 3));
                }
            }
            let right = self.term(Ghost(right_goal))?;
            proof {
                lemma_syms_one(self.tokens@, c1);
                lemma_syms_join(self.tokens@, start, c1, c1 + 1);
                lemma_syms_join(self.tokens@, start, c1 + 1, self.current as int);
                if goal is Some {
                    node = spine_parent(e, node);
                }
            }
            expr = Expression::Binary(BinaryExpr::new(Box::new(expr), operator, Box::new(right)));
        }
        Ok(expr)
    }

    /// One level of left-associative binary operators.
    fn term(&mut self, Ghost(goal): Ghost<Option<int>>) -> (r: Result<Expression<N>, ParserError<N>>)
        requires
            old(self).wf(),
            goal is Some ==> expression_at(old(self).tokens@, old(self).current as int, goal->0, 3),
        ensures
            expr_parsed(*old(self), *final(self), r, 3),
            goal is Some ==> r is Ok && final(self).current == goal->0,
        decreases old(self).tokens@.len() - old(self).current, 4int,
    {
        let ghost start = self.current as int;
        let ghost ts = self.tokens@;
        let ghost q = goal->0;
        let ghost e = choose|e: Expression<N>| reads_as(ts, start, q, e, 3);
        let ghost mut node = spine_bottom(e, 3);
        let ghost first_goal: Option<int> = if goal is Some {
            Some(start + expr_syms(node).len())
        } else {
            None
        };
        proof {
            if goal is Some {
                lemma_spine_bottom(e, 3);
                lemma_spine_next(ts, start, q, e, node, 3);
                assert(reads_as(ts, start, start + expr_syms(node).len(), node, 4));
            }
        }
        let mut expr = self.factor(Ghost(first_goal))?;
        proof {
            lemma_fits_lower(expr, 4, 3);
        }
        loop
            invariant
                self.wf(),
                self.tokens == old(self).tokens,
                ts == self.tokens@,
                start == old(self).current,
                start <= self.current,
                fits(expr, 3),
                expr_syms(expr) == self.syms_between(start, self.current as int),
                can_start_expression(old(self).next_kind()),
                stops(self.next_kind(), 4),
                goal is Some ==> reads_as(ts, start, q, e, 3),
                goal is Some ==> on_spine(e, node, 3),
                goal is Some ==> self.current == start + expr_syms(node).len(),
            ensures
                self.wf(),
                self.tokens == old(self).tokens,
                start <= self.current,
                fits(expr, 3),
                expr_syms(expr) == self.syms_between(start, self.current as int),
                can_start_expression(old(self).next_kind()),
                stops(self.next_kind(), 3),
                goal is Some ==> self.current == q,
            decreases self.tokens@.len() - self.current,
        {
            let ghost c1 = self.current as int;
            proof {
                if goal is Some {
                    lemma_spine_next(ts, start, q, e, node, 3);
                }
            }
            let ops = [TokenType::Minus, TokenType::Plus];
            if !self.match_tokens(&ops) {
                break;
            }
            let operator = self.previous().duplicate();
            assert(binary_level(operator.token_type) == 3);
            let ghost right_goal: Option<int> = if goal is Some {
                Some(start + expr_syms(spine_parent(e, node)).len())
            } else {
                None
            };
            proof {
                if goal is Some {
                    lemma_spine_parent(e, node, 3);
                    let par = spine_parent(e, node);
                    lemma_spine_prefix(e, par, 3);
                    lemma_spine_next(ts, start, q, e, par, 3);
                    let pb = par->Binary_0;
                    let n = expr_syms(node).len() as int;
                    let m = expr_syms(par).len() as int;
                    assert(expr_syms(par) == expr_syms(node) + seq![token_sym(pb.operator@)] + expr_syms(*pb.right));
                    lemma_syms_part(ts, start, start + m, n + 1, m);
                    assert(expr_syms(*pb.right) =~= expr_syms(par).subrange(n + 1, m));
                    assert(reads_as(ts, c1 + 1, start + m, *pb.right, 4));
                }
            }
            let right = self.factor(Ghost(right_goal))?;
            proof {
                lemma_syms_one(self.tokens@, c1);
                lemma_syms_join(self.tokens@, start, c1, c1 + 1);
                lemma_syms_join(self.tokens@, start, c1 + 1, self.current as int);
                if goal is Some {
                    node = spine_parent(e, node);
                }
            }
            expr = Expression::Binary(BinaryExpr::new(Box::new(expr), operator, Box::new(right)));
        }
        Ok(expr)
    }

    /// One level of left-associative binary operators.
    fn factor(&mut self, Ghost(goal): Ghost<Option<int>>) -> (r: Result<Expression<N>, ParserError<N>>)
        requires
            old(self).wf(),
            goal is Some ==> expression_at(old(self).tokens@, old(self).current as int, goal->0, 4),
        ensures
            expr_parsed(*old(self), *final(self), r, 4),
            goal is Some ==> r is Ok && final(self).current == goal->0,
        decreases old(self).tokens@.len() - old(self).current, 3int,
    {
        let ghost start = self.current as int;
        let ghost ts = self.tokens@;
        let ghost q = goal->0;
        let ghost e = choose|e: Expression<N>| reads_as(ts, start, q, e, 4);
        let ghost mut node = spine_bottom(e, 4);
        let ghost first_goal: Option<int> = if goal is Some {
            Some(start + expr_syms(node).len())
        } else {
            None
        };
        proof {
            if goal is Some {
                lemma_spine_bottom(e, 4);
                lemma_spine_next(ts, start, q, e, node, 4);
                assert(reads_as(ts, start, start + expr_syms(node).len(), node, 5));
            }
        }
        let mut expr = self.unary(Ghost(first_goal))?;
        proof {
            lemma_fits_lower(expr, 5, 4);
        }
        loop
            invariant
                self.wf(),
                self.tokens == old(self).tokens,
                ts == self.tokens@,
                start == old(self).current,
                start <= self.current,
                fits(expr, 4),
                expr_syms(expr) == self.syms_between(start, self.current as int),
                can_start_expression(old(self).next_kind()),
                stops(self.next_kind(), 5),
                goal is Some ==> reads_as(ts, start, q, e, 4),
                goal is Some ==> on_spine(e, node, 4),
                goal is Some ==> self.current == start + expr_syms(node).len(),
            ensures
                self.wf(),
                self.tokens == old(self).tokens,
                start <= self.current,
                fits(expr, 4),
                expr_syms(expr) == self.syms_between(start, self.current as int),
                can_start_expression(old(self).next_kind()),
                stops(self.next_kind(), 4),
                goal is Some ==> self.current == q,
            decreases self.tokens@.len() - self.current,
        {
            let ghost c1 = self.current as int;
            proof {
                if goal is Some {
                    lemma_spine_next(ts, start, q, e, node, 4);
                }
            }
            let ops = [TokenType::Slash, TokenType::Star];
            if !self.match_tokens(&ops) {
                break;
            }
            let operator = self.previous().duplicate();
            assert(binary_level(operator.token_type) == 4);
            let ghost right_goal: Option<int> = if goal is Some {
                Some(start + expr_syms(spine_parent(e, node)).len())
            } else {
                None
            };
            proof {
                if goal is Some {
                    lemma_spine_parent(e, node, 4);
                    let par = spine_parent(e, node);
                    lemma_spine_prefix(e, par, 4);
                    lemma_spine_next(ts, start, q, e, par, 4);
                    let pb = par->Binary_0;
                    let n = expr_syms(node).len() as int;
                    let m = expr_syms(par).len() as int;
                    assert(expr_syms(par) == expr_syms(node) + seq![token_sym(pb.operator@)] + expr_syms(*pb.right));
                    lemma_syms_part(ts, start, start + m, n + 1, m);
                    assert(expr_syms(*pb.right) =~= expr_syms(par).subrange(n + 1, m));
                    assert(reads_as(ts, c1 + 1, start + m, *pb.right, 5));
                }
            }
            let right = self.unary(Ghost(right_goal))?;
            proof {
                lemma_syms_one(self.tokens@, c1);
                lemma_syms_join(self.tokens@, start, c1, c1 + 1);
                lemma_syms_join(self.tokens@, start, c1 + 1, self.current as int);
                if goal is Some {
                    node = spine_parent(e, node);
                }
            }
            expr = Expression::Binary(BinaryExpr::new(Box::new(expr), operator, Box::new(right)));
        }
        Ok(expr)
    }

    /// `unary → ( "!" | "-" ) unary | primary`.
    fn unary(&mut self, Ghost(goal): Ghost<Option<int>>) -> (r: Result<Expression<N>, ParserError<N>>)
        requires
            old(self).wf(),
            goal is Some ==> expression_at(old(self).tokens@, old(self).current as int, goal->0, 5),
        ensures
            expr_parsed(*old(self), *final(self), r, 5),
            goal is Some ==> r is Ok && final(self).current == goal->0,
        decreases old(self).tokens@.len() - old(self).current, 2int,
    {
        let ghost start = self.current as int;
        let ghost ts = self.tokens@;
        let ghost q = goal->0;
        let ghost e = choose|e: Expression<N>| reads_as(ts, start, q, e, 5);
        proof {
            if goal is Some {
                lemma_syms_nonempty(e);
                assert(expr_syms(e)[0] == token_syms(views(ts.subrange(start, q)))[0]);
                lemma_first_sym(e);
                if !(e is Unary) {
                    assert(reads_as(ts, start, q, e, 6));
                }
            }
        }
        if self.match_tokens(&[TokenType::Bang, TokenType::Minus]) {
            let operator = self.previous().duplicate();
            let ghost right_goal: Option<int> = if goal is Some {
                Some(q)
            } else {
                None
            };
            proof {
                if goal is Some {
                    let u = e->Unary_0;
                    lemma_syms_part(ts, start, q, 1, q - start);
                    assert(expr_syms(*u.right) =~= expr_syms(e).subrange(1, q - start));
                    assert(reads_as(ts, start + 1, q, *u.right, 5));
                }
            }
            let right = self.unary(Ghost(right_goal))?;
            proof {
                lemma_syms_one(self.tokens@, start);
                lemma_syms_join(self.tokens@, start, start + 1, self.current as int);
            }
            return Ok(Expression::Unary(UnaryExpr::new(operator, Box::new(right))));
        }
        let e2 = self.primary(Ghost(goal))?;
        proof {
            lemma_fits_lower(e2, 6, 5);
        }
        Ok(e2)
    }

    /// A literal, a variable, or a parenthesised expression.
    fn primary(&mut self, Ghost(goal): Ghost<Option<int>>) -> (r: Result<Expression<N>, ParserError<N>>)
        requires
            old(self).wf(),
            goal is Some ==> expression_at(old(self).tokens@, old(self).current as int, goal->0, 6),
        ensures
            expr_parsed(*old(self), *final(self), r, 6),
            goal is Some ==> r is Ok && final(self).current == goal->0,
            !starts_primary(old(self).next_kind()) ==> r == Err::<Expression<N>, ParserError<N>>(
                ParserError::UnexpectedToken(old(self).tokens@[old(self).current as int]),
            ) && final(self).current == old(self).current,
            goal is None && unclosed_group(old(self).tokens@, old(self).current as int) ==> {
                &&& expression_at(old(self).tokens@, old(self).current + 1, final(self).current as int, 0)
                &&& r == Err::<Expression<N>, ParserError<N>>(
                    ParserError::UndisclosedDelimiter(old(self).tokens@[final(self).current as int]),
                )
            },
        decreases old(self).tokens@.len() - old(self).current, 1int,
    {
        let ghost start = self.current as int;
        let ghost ts = self.tokens@;
        let ghost q = goal->0;
        let ghost e = choose|e: Expression<N>| reads_as(ts, start, q, e, 6);
        proof {
            lemma_syms_one(self.tokens@, start);
            if goal is Some {
                lemma_syms_nonempty(e);
                assert(expr_syms(e)[0] == token_syms(views(ts.subrange(start, q)))[0]);
                lemma_first_sym(e);
                if !(e is Grouping) {
                    assert(expr_syms(e).len() == 1);
                }
            }
        }
        if self.match_tokens(&[TokenType::False]) {
            return Ok(Expression::Literal(LiteralExpr::new(LiteralValue::Boolean(BooleanLiteral { value: false }))));
        }
        if self.match_tokens(&[TokenType::True]) {
            return Ok(Expression::Literal(LiteralExpr::new(LiteralValue::Boolean(BooleanLiteral { value: true }))));
        }
        if self.match_tokens(&[TokenType::Nil]) {
            return Ok(Expression::Literal(LiteralExpr::new(LiteralValue::Nil(NilLiteral))));
        }
        if self.match_tokens(&[TokenType::Number, TokenType::String]) {
            let t = self.previous();
            return match &t.literal {
                Some(v) => Ok(Expression::Literal(LiteralExpr::new(v.duplicate()))),
                None => Err(ParserError::UnexpectedToken(t.duplicate())),
            };
        }
        if self.match_tokens(&[TokenType::Identifier]) {
            return Ok(Expression::Variable(VariableExpr::new(self.previous().duplicate())));
        }
        if self.match_tokens(&[TokenType::LeftParen]) {
            let ghost inner_goal: Option<int> = if goal is Some {
                Some(q - 1)
            } else if unclosed_group(ts, start) {
                Some(choose|q: int| expression_at(ts, start + 1, q, 0) && ts[q].token_type != TokenType::RightParen)
            } else {
                None
            };
            proof {
                if goal is Some {
                    let g = e->Grouping_0;
                    let n = q - start;
                    assert(expr_syms(e) == seq![Sym::Kind(TokenType::LeftParen)] + expr_syms(*g.expression) + seq![Sym::Kind(TokenType::RightParen)]);
                    lemma_syms_part(ts, start, q, 1, n - 1);
                    assert(expr_syms(*g.expression) =~= expr_syms(e).subrange(1, n - 1));
                    lemma_syms_part(ts, start, q, n - 1, n);
                    assert(expr_syms(e)[n - 1] == token_syms(views(ts.subrange(start, q)))[n - 1]);
                    assert(token_syms(views(ts.subrange(q - 1, q)))[0] == token_sym(ts[q - 1]@));
                    assert(reads_as(ts, start + 1, q - 1, *g.expression, 0));
                }
            }
            let expr = self.expression(Ghost(inner_goal))?;
            let ghost c1 = self.current as int;
            self.consume(TokenType::RightParen)?;
            proof {
                lemma_syms_one(self.tokens@, c1);
                lemma_syms_join(self.tokens@, start, start + 1, c1);
                lemma_syms_join(self.tokens@, start, c1, c1 + 1);
            }
            let r = Expression::Grouping(GroupingExpr::new(Box::new(expr)));
            assert(expr_syms(r) =~= self.syms_between(start, self.current as int));
            return Ok(r);
        }
        Err(ParserError::UnexpectedToken(self.peek().duplicate()))
    }
}

/// The text of a syntax error, naming the token it was found at (or the end).
pub open spec fn error_text<N: Numeric>(e: ParserError<N>) -> Seq<char> {
    let (t, what) = match e {
        ParserError::UndisclosedDelimiter(t) => (t, "Undisclosed delimiter"@),
        ParserError::ExpectExpression(t) => (t, "Expected expression"@),
        ParserError::UnexpectedToken(t) => (t, "Unexpected token"@),
        ParserError::NoSemicolon(t) => (t, "Missing semicolon"@),
        ParserError::InvalidAssignmentTarget(t) => (t, "Invalid assignment target"@),
    };
    if t.token_type == TokenType::Eof {
        "at end: "@ + what
    } else if e is NoSemicolon {
        "Missing semicolon after "@ + token_text(t@)
    } else {
        "at "@ + token_text(t@) + ": "@ + what
    }
}

impl<N: Numeric> ParserError<N> {
    /// The text the error is reported with.
    pub fn message(&self) -> (r: String)
        ensures
            r@ == error_text(*self),
    {
        let (t, what) = match self {
            ParserError::UndisclosedDelimiter(t) => (t, "Undisclosed delimiter"),
            ParserError::ExpectExpression(t) => (t, "Expected expression"),
            ParserError::UnexpectedToken(t) => (t, "Unexpected token"),
            ParserError::NoSemicolon(t) => (t, "Missing semicolon"),
            ParserError::InvalidAssignmentTarget(t) => (t, "Invalid assignment target"),
        };
        if t.token_type == TokenType::Eof {
            let mut out = String::from_str("at end: ");
            out.append(what);
            return out;
        }
        if let ParserError::NoSemicolon(_) = self {
            let mut out = String::from_str("Missing semicolon after ");
            out.append(t.to_string().as_str());
            return out;
        }
        let mut out = String::from_str("at ");
        out.append(t.to_string().as_str());
        out.append(": ");
        out.append(what);
        out
    }
}

/// A program read from tokens: the statements read back as the tokens up to
/// an end-of-input token, and each is well formed.
pub open spec fn program_reads<N>(tokens: Seq<Token<N>>, statements: Seq<Statement<N>>) -> bool {
    exists|k: int|
        0 <= k < tokens.len() && tokens[k].token_type == TokenType::Eof && #[trigger] list_syms(statements)
            == token_syms(views(tokens.subrange(0, k)))
}

/// Parses a whole program; the first syntax error ends the parse. It
/// succeeds exactly when the tokens read as well-formed statements up to an
/// end-of-input token.
pub fn parse<N: Numeric>(tokens: Vec<Token<N>>) -> (r: Result<Vec<Statement<N>>, ParserError<N>>)
    requires
        ends_in_eof(tokens@),
    ensures
        r is Ok <==> exists|k: int| statements_at(tokens@, 0, k, TokenType::Eof),
        r is Ok ==> list_ok(r->Ok_0@) && program_reads(tokens@, r->Ok_0@),
        r is Err ==> exists|c: int|
            #[trigger] first_failure(tokens@, 0, c) && (known_failure(tokens@, c) ==> declaration_error(
                tokens@,
                c,
                r->Err_0,
            )),
        tokens@[0].token_type == TokenType::Eof ==> r is Ok && r->Ok_0@.len() == 0,
{
    let ghost ts = tokens@;
    let mut parser = Parser::new(tokens);
    let r = parser.parse();
    proof {
        if r is Ok {
            let k = parser.current as int;
            assert(list_syms(r->Ok_0@) == token_syms(views(ts.subrange(0, k))));
            assert(list_reads_as(ts, 0, k, r->Ok_0@, TokenType::Eof));
            assert(statements_at(ts, 0, k, TokenType::Eof));
        }
    }
    r
}

/// Parses one expression from the start of the tokens. It succeeds exactly
/// when the tokens start with an expression that the next token cannot
/// continue; the tree fits the precedence levels and reads as the tokens
/// consumed.
pub fn parse_print_single_expr<N: Numeric>(tokens: Vec<Token<N>>) -> (r: Result<Expression<N>, ParserError<N>>)
    requires
        ends_in_eof(tokens@),
    ensures
        r is Ok <==> exists|q: int| expression_at(tokens@, 0, q, 0),
        r is Ok ==> exists|q: int| reads_as(tokens@, 0, q, r->Ok_0, 0),
        !can_start_expression(tokens@[0].token_type) ==> r == Err::<Expression<N>, ParserError<N>>(
            ParserError::UnexpectedToken(tokens@[0]),
        ),
        r is Err && (exists|q: int| bad_target(tokens@, 0, q)) ==> exists|q: int|
            bad_target(tokens@, 0, q) && r == Err::<Expression<N>, ParserError<N>>(
                ParserError::InvalidAssignmentTarget(tokens@[q]),
            ),
{
    let ghost ts = tokens@;
    let mut parser = Parser::new(tokens);
    let r = parser.parse_single_expr();
    proof {
        if r is Ok {
            assert(reads_as(ts, 0, parser.current as int, r->Ok_0, 0));
            assert(expression_at(ts, 0, parser.current as int, 0));
        }
    }
    r
}

} // verus!
