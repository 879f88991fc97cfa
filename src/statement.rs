//! Statements and their execution.
use crate::environment::{
    define_in, keeps_bindings_of, lemma_keeps_drop_last, lemma_keeps_lookup, lemma_keeps_refl, lemma_keeps_trans, lookup,
    same_names, Environment, ScopeModel,
};
use crate::expression::{assigns_nothing, assigns_to, lemma_eval_keeps_bindings_of, eval, render, lemma_eval_keeps_names, lemma_eval_keeps_scopes, ErrorModel, Expression, RuntimeError};
use crate::number::Numeric;
use crate::scan::texts;
use crate::token::{token_text, value_text, LiteralModel, Token};
use vstd::prelude::*;
use vstd::string::*;

verus! {

broadcast use vstd::seq::axiom_seq_index_decreases, vstd::seq::axiom_seq_subrange_decreases,
    vstd::std_specs::vec::axiom_vec_index_decreases;

/// The kind of a statement node.
#[derive(Debug, Clone, Copy, PartialEq, Eq, Structural)]
pub enum StatementType {
    Expression,
    Print,
    Var,
    Block,
}

/// A statement tree; a block is the only statement that opens a scope.
pub enum Statement<N> {
    Expression(ExpressionStmt<N>),
    Print(PrintStmt<N>),
    Var(VarStmt<N>),
    Block(BlockStmt<N>),
}

/// An expression evaluated for its effect.
pub struct ExpressionStmt<N> {
    pub value: Expression<N>,
}

pub struct PrintStmt<N> {
    pub value: Expression<N>,
}

/// `var name;` or `var name = initializer;`.
pub struct VarStmt<N> {
    pub name: Token<N>,
    pub initializer: Option<Expression<N>>,
}

pub struct BlockStmt<N> {
    pub stmts: Vec<Statement<N>>,
}

impl<N: Numeric> ExpressionStmt<N> {
    pub fn new(value: Expression<N>) -> (r: Self)
        ensures
            r == (ExpressionStmt { value }),
    {
        ExpressionStmt { value }
    }
}

impl<N: Numeric> PrintStmt<N> {
    pub fn new(value: Expression<N>) -> (r: Self)
        ensures
            r == (PrintStmt { value }),
    {
        PrintStmt { value }
    }
}

impl<N: Numeric> VarStmt<N> {
    pub fn new(name: Token<N>, initializer: Option<Expression<N>>) -> (r: Self)
        ensures
            r == (VarStmt { name, initializer }),
    {
        VarStmt { name, initializer }
    }
}

impl<N: Numeric> BlockStmt<N> {
    pub fn new(stmts: Vec<Statement<N>>) -> (r: Self)
        ensures
            r == (BlockStmt { stmts }),
    {
        BlockStmt { stmts }
    }
}

/// The line a print statement writes for a value; an absent value prints `nil`.
pub open spec fn print_text<N: Numeric>(v: Option<LiteralModel<N>>) -> Seq<char> {
    match v {
        Some(x) => value_text(x),
        None => "nil"@,
    }
}

/// The state a statement runs in and leaves: the scopes and the lines printed so far.
pub type RunState<N> = (Seq<ScopeModel<N>>, Seq<Seq<char>>);

/// Execution of a statement: success or the error that aborted it, and the
/// state after it. A block runs in a new innermost scope, which is discarded
/// when the block ends; when it ends by an error, every binding is as it was
/// before the block (lines already printed stay printed).
pub open spec fn exec_stmt<N: Numeric>(s: Statement<N>, st: RunState<N>) -> (Result<(), ErrorModel<N>>, RunState<N>)
    decreases s,
{
    let (env, out) = st;
    match s {
        Statement::Expression(e) => {
            let (r, env1) = eval(e.value, env);
            match r {
                Ok(_) => (Ok(()), (env1, out)),
                Err(err) => (Err(err), (env1, out)),
            }
        },
        Statement::Print(p) => {
            let (r, env1) = eval(p.value, env);
            match r {
                Ok(v) => (Ok(()), (env1, out.push(print_text(v)))),
                Err(err) => (Err(err), (env1, out)),
            }
        },
        Statement::Var(v) => match v.initializer {
            Some(init) => {
                let (r, env1) = eval(init, env);
                match r {
                    Ok(x) => (Ok(()), (define_in(env1, v.name.lexeme@, x), out)),
                    Err(err) => (Err(err), (env1, out)),
                }
            },
            None => (Ok(()), (define_in(env, v.name.lexeme@, None), out)),
        },
        Statement::Block(b) => {
            let (r, (env1, out1)) = exec_list(b.stmts@, (env.push(Seq::empty()), out));
            match r {
                Ok(_) => (r, (env1.drop_last(), out1)),
                Err(_) => (r, (env, out1)),
            }
        },
    }
}

/// Execution of statements in order; the first error aborts the rest.
pub open spec fn exec_list<N: Numeric>(ss: Seq<Statement<N>>, st: RunState<N>) -> (Result<(), ErrorModel<N>>, RunState<N>)
    decreases ss,
{
    if ss.len() == 0 {
        (Ok(()), st)
    } else {
        let (r, st1) = exec_list(ss.drop_last(), st);
        match r {
            Ok(_) => exec_stmt(ss.last(), st1),
            Err(err) => (Err(err), st1),
        }
    }
}

/// A statement's debug description.
pub open spec fn dbg_text<N: Numeric>(s: Statement<N>) -> Seq<char>
    decreases s,
{
    match s {
        Statement::Expression(e) => "Expression statement with value "@ + render(e.value),
        Statement::Print(p) => "Print statement with value "@ + render(p.value),
        Statement::Var(v) => "name: "@ + token_text(v.name@) + ", initializer: "@ + match v.initializer {
            Some(e) => render(e),
            None => "null"@,
        },
        Statement::Block(b) => dbg_list(b.stmts@),
    }
}

/// The debug descriptions of statements, run together.
pub open spec fn dbg_list<N: Numeric>(ss: Seq<Statement<N>>) -> Seq<char>
    decreases ss,
{
    if ss.len() == 0 {
        Seq::empty()
    } else {
        dbg_list(ss.drop_last()) + dbg_text(ss.last())
    }
}

/// The model of an execution result.
pub open spec fn done<N>(r: Result<(), RuntimeError<N>>) -> Result<(), ErrorModel<N>> {
    match r {
        Ok(_) => Ok(()),
        Err(e) => Err(e@),
    }
}

/// Once a prefix of a statement list has failed, the rest never runs.
pub proof fn lemma_exec_list_stops<N: Numeric>(ss: Seq<Statement<N>>, k: int, st: RunState<N>)
    requires
        0 <= k <= ss.len(),
        exec_list(ss.subrange(0, k), st).0 is Err,
    ensures
        exec_list(ss, st) == exec_list(ss.subrange(0, k), st),
    decreases ss.len() - k,
{
    if k < ss.len() {
        assert(ss.drop_last().subrange(0, k) =~= ss.subrange(0, k));
        lemma_exec_list_stops(ss.drop_last(), k, st);
    } else {
        assert(ss.subrange(0, k) =~= ss);
    }
}

impl<N: Numeric> Statement<N> {
    pub fn get_type(&self) -> (r: StatementType)
        ensures
            r == match *self {
                Statement::Expression(_) => StatementType::Expression,
                Statement::Print(_) => StatementType::Print,
                Statement::Var(_) => StatementType::Var,
                Statement::Block(_) => StatementType::Block,
            },
    {
        match self {
            Statement::Expression(_) => StatementType::Expression,
            Statement::Print(_) => StatementType::Print,
            Statement::Var(_) => StatementType::Var,
            Statement::Block(_) => StatementType::Block,
        }
    }

    /// A debug description of the statement.
    pub fn dbg(&self) -> (r: String)
        ensures
            r@ == dbg_text(*self),
        decreases self,
    {
        match self {
            Statement::Expression(e) => {
                let mut out = String::from_str("Expression statement with value ");
                out.append(e.value.accept().as_str());
                out
            },
            Statement::Print(p) => {
                let mut out = String::from_str("Print statement with value ");
                out.append(p.value.accept().as_str());
                out
            },
            Statement::Var(v) => {
                let mut out = String::from_str("name: ");
                out.append(v.name.to_string().as_str());
                out.append(", initializer: ");
                let init = match &v.initializer {
                    Some(e) => e.accept(),
                    None => String::from_str("null"),
                };
                out.append(init.as_str());
                out
            },
            Statement::Block(b) => {
                let mut out = String::new();
                let mut i: usize = 0;
                assert(b.stmts@.subrange(0, 0) =~= Seq::<Statement<N>>::empty());
                while i < b.stmts.len()
                    invariant
                        i <= b.stmts@.len(),
                        *self == Statement::Block(*b),
                        out@ == dbg_list(b.stmts@.subrange(0, i as int)),
                    decreases b.stmts.len() - i,
                {
                    proof {
                        assert(decreases_to!(b.stmts => b.stmts@));
                        assert(decreases_to!(b.stmts@ => b.stmts@[i as int]));
                        assert(decreases_to!(*self => (*self)->Block_0));
                        assert(decreases_to!(*b => b.stmts));
                    }
                    let d = b.stmts[i].dbg();
                    out.append(d.as_str());
                    assert(b.stmts@.subrange(0, i + 1).drop_last() =~= b.stmts@.subrange(0, i as int));
                    i = i + 1;
                }
                assert(b.stmts@.subrange(0, i as int) =~= b.stmts@);
                out
            },
        }
    }

    /// Executes the statement: bindings change in the environment and
    /// printed lines are appended to `output`.
    pub fn evaluate(&self, env: &mut Environment<N>, output: &mut Vec<String>) -> (r: Result<(), RuntimeError<N>>)
        requires
            old(env).wf(),
        ensures
            final(env).wf(),
            final(env)@.len() == old(env)@.len(),
            (done(r), (final(env)@, texts(final(output)@))) == exec_stmt(*self, (old(env)@, texts(old(output)@))),
        decreases self,
    {
        let ghost out0 = texts(output@);
        match self {
            Statement::Expression(e) => {
                match e.value.evaluate(env) {
                    Ok(_) => Ok(()),
                    Err(err) => Err(err),
                }
            },
            Statement::Print(p) => {
                match p.value.evaluate(env) {
                    Ok(v) => {
                        let line = match v {
                            Some(x) => x.print_value(),
                            None => String::from_str("nil"),
                        };
                        output.push(line);
                        assert(texts(output@) =~= out0.push(line@));
                        Ok(())
                    },
                    Err(err) => Err(err),
                }
            },
            Statement::Var(v) => {
                match &v.initializer {
                    Some(init) => {
                        match init.evaluate(env) {
                            Ok(x) => {
                                env.define(v.name.lexeme.clone(), x);
                                Ok(())
                            },
                            Err(err) => Err(err),
                        }
                    },
                    None => {
                        env.define(v.name.lexeme.clone(), None);
                        Ok(())
                    },
                }
            },
            Statement::Block(b) => {
                let ghost start: RunState<N> = (env@.push(Seq::empty()), out0);
                let ghost len0 = env@.len();
                let saved = env.duplicate();
                env.push_scope();
                let mut i: usize = 0;
                assert(b.stmts@.subrange(0, 0) =~= Seq::<Statement<N>>::empty());
                while i < b.stmts.len()
                    invariant
                        i <= b.stmts@.len(),
                        env.wf(),
                        env@.len() == len0 + 1,
                        len0 >= 1,
                        len0 == old(env)@.len(),
                        *self == Statement::Block(*b),
                        start == (old(env)@.push(Seq::empty()), texts(old(output)@)),
                        saved@ == old(env)@,
                        exec_list(b.stmts@.subrange(0, i as int), start) == (Ok::<(), ErrorModel<N>>(()), (env@, texts(output@))),
                    decreases b.stmts.len() - i,
                {
                    proof {
                        assert(decreases_to!(b.stmts => b.stmts@));
                        assert(decreases_to!(b.stmts@ => b.stmts@[i as int]));
                        assert(decreases_to!(*self => (*self)->Block_0));
                        assert(decreases_to!(*b => b.stmts));
                    }
                    let r = b.stmts[i].evaluate(env, output);
                    assert(b.stmts@.subrange(0, i + 1).drop_last() =~= b.stmts@.subrange(0, i as int));
                    match r {
                        Ok(_) => {},
                        Err(err) => {
                            proof {
                                assert(b.stmts@.subrange(0, i + 1).last() == b.stmts@[i as int]);
                                assert(exec_list(b.stmts@.subrange(0, i + 1), start).0 is Err);
                                lemma_exec_list_stops(b.stmts@, i + 1, start);
                                assert(exec_list(b.stmts@, start) == (Err::<(), ErrorModel<N>>(err@), (env@, texts(output@))));
                            }
                            *env = saved;
                            return Err(err);
                        },
                    }
                    i = i + 1;
                }
                assert(b.stmts@.subrange(0, i as int) =~= b.stmts@);
                env.pop_scope();
                Ok(())
            },
        }
    }
}

/// A statement with no assignment anywhere in it.
pub open spec fn stmt_assigns_nothing<N>(s: Statement<N>) -> bool
    decreases s,
{
    match s {
        Statement::Expression(e) => assigns_nothing(e.value),
        Statement::Print(p) => assigns_nothing(p.value),
        Statement::Var(v) => match v.initializer {
            Some(e) => assigns_nothing(e),
            None => true,
        },
        Statement::Block(b) => list_assigns_nothing(b.stmts@),
    }
}

pub open spec fn list_assigns_nothing<N>(ss: Seq<Statement<N>>) -> bool
    decreases ss,
{
    if ss.len() == 0 {
        true
    } else {
        list_assigns_nothing(ss.drop_last()) && stmt_assigns_nothing(ss.last())
    }
}

/// A statement with no assignment changes the innermost scope at most.
pub proof fn lemma_stmt_touches_innermost<N: Numeric>(s: Statement<N>, st: RunState<N>)
    requires
        stmt_assigns_nothing(s),
        st.0.len() >= 1,
    ensures
        exec_stmt(s, st).1.0.len() == st.0.len(),
        exec_stmt(s, st).1.0.drop_last() == st.0.drop_last(),
    decreases s, 0int,
{
    let (env, out) = st;
    match s {
        Statement::Expression(e) => {
            lemma_eval_keeps_scopes(e.value, env);
        },
        Statement::Print(p) => {
            lemma_eval_keeps_scopes(p.value, env);
        },
        Statement::Var(v) => {
            let env1 = match v.initializer {
                Some(init) => {
                    lemma_eval_keeps_scopes(init, env);
                    eval(init, env).1
                },
                None => env,
            };
            let x = match v.initializer {
                Some(init) => eval(init, env).0,
                None => Ok(None),
            };
            if x is Ok {
                let d = define_in(env1, v.name.lexeme@, x->Ok_0);
                assert(d.drop_last() =~= env.drop_last());
            }
        },
        Statement::Block(b) => {
            assert(decreases_to!(b.stmts => b.stmts@));
            lemma_list_touches_innermost(b.stmts@, (env.push(Seq::empty()), out));
            assert(env.push(Seq::empty()).drop_last() =~= env);
        },
    }
}

/// Statements with no assignment change the innermost scope at most.
pub proof fn lemma_list_touches_innermost<N: Numeric>(ss: Seq<Statement<N>>, st: RunState<N>)
    requires
        list_assigns_nothing(ss),
        st.0.len() >= 1,
    ensures
        exec_list(ss, st).1.0.len() == st.0.len(),
        exec_list(ss, st).1.0.drop_last() == st.0.drop_last(),
    decreases ss, 1int,
{
    if ss.len() > 0 {
        lemma_list_touches_innermost(ss.drop_last(), st);
        let (r, st1) = exec_list(ss.drop_last(), st);
        if r is Ok {
            lemma_stmt_touches_innermost(ss.last(), st1);
        }
    }
}

/// Scoping: a block that assigns nothing leaves every binding outside it as
/// it was; in particular a declaration inside it, shadowing or not, does not
/// outlive the block, whether the block ends normally or by an error.
pub proof fn lemma_block_keeps_outer_bindings<N: Numeric>(b: BlockStmt<N>, env: Seq<ScopeModel<N>>, out: Seq<Seq<char>>)
    requires
        list_assigns_nothing(b.stmts@),
        env.len() >= 1,
    ensures
        exec_stmt(Statement::Block(b), (env, out)).1.0 == env,
{
    lemma_list_touches_innermost(b.stmts@, (env.push(Seq::empty()), out));
    assert(env.push(Seq::empty()).drop_last() =~= env);
}

/// A statement changes at most which names the innermost scope binds.
pub proof fn lemma_stmt_keeps_outer_names<N: Numeric>(s: Statement<N>, st: RunState<N>)
    requires
        st.0.len() >= 1,
    ensures
        exec_stmt(s, st).1.0.len() == st.0.len(),
        same_names(exec_stmt(s, st).1.0.drop_last(), st.0.drop_last()),
    decreases s, 0int,
{
    let (env, out) = st;
    match s {
        Statement::Expression(e) => {
            lemma_eval_keeps_names(e.value, env);
            lemma_names_drop_last(env, eval(e.value, env).1);
        },
        Statement::Print(p) => {
            lemma_eval_keeps_names(p.value, env);
            lemma_names_drop_last(env, eval(p.value, env).1);
        },
        Statement::Var(v) => {
            match v.initializer {
                Some(init) => {
                    lemma_eval_keeps_names(init, env);
                    let (x, env1) = eval(init, env);
                    lemma_names_drop_last(env, env1);
                    if x is Ok {
                        let d = define_in(env1, v.name.lexeme@, x->Ok_0);
                        assert(d.drop_last() =~= env1.drop_last());
                    }
                },
                None => {
                    let d = define_in(env, v.name.lexeme@, None);
                    assert(d.drop_last() =~= env.drop_last());
                    lemma_names_drop_last(env, env);
                },
            }
        },
        Statement::Block(b) => {
            assert(decreases_to!(b.stmts => b.stmts@));
            let inner = env.push(Seq::empty());
            lemma_list_keeps_outer_names(b.stmts@, (inner, out));
            assert(inner.drop_last() =~= env);
            let (r, (env2, _)) = exec_list(b.stmts@, (inner, out));
            if r is Ok {
                lemma_names_drop_last(env2.drop_last(), env);
            } else {
                lemma_names_drop_last(env, env);
            }
        },
    }
}

/// Statements change at most which names the innermost scope binds.
pub proof fn lemma_list_keeps_outer_names<N: Numeric>(ss: Seq<Statement<N>>, st: RunState<N>)
    requires
        st.0.len() >= 1,
    ensures
        exec_list(ss, st).1.0.len() == st.0.len(),
        same_names(exec_list(ss, st).1.0.drop_last(), st.0.drop_last()),
    decreases ss, 1int,
{
    if ss.len() == 0 {
        lemma_names_drop_last(st.0, st.0);
    } else {
        lemma_list_keeps_outer_names(ss.drop_last(), st);
        let (r, st1) = exec_list(ss.drop_last(), st);
        if r is Ok {
            lemma_stmt_keeps_outer_names(ss.last(), st1);
        }
    }
}

/// Chains with the same names still have them without their innermost scopes.
proof fn lemma_names_drop_last<N>(a: Seq<ScopeModel<N>>, b: Seq<ScopeModel<N>>)
    requires
        same_names(a, b) || a == b,
        a.len() >= 1,
    ensures
        same_names(a.drop_last(), b.drop_last()),
        same_names(a, b),
{
}

/// Scoping: a block, whether it ends normally or by an error, leaves every
/// scope of the chain binding exactly the names it bound before; nothing
/// declared inside the block, shadowing or not, outlives it (assignments to
/// outer names keep their new values when the block ends normally).
pub proof fn lemma_block_keeps_outer_names<N: Numeric>(b: BlockStmt<N>, env: Seq<ScopeModel<N>>, out: Seq<Seq<char>>)
    requires
        env.len() >= 1,
    ensures
        same_names(exec_stmt(Statement::Block(b), (env, out)).1.0, env),
{
    let inner = env.push(Seq::empty());
    lemma_list_keeps_outer_names(b.stmts@, (inner, out));
    assert(inner.drop_last() =~= env);
}

/// Whether a statement assigns to the name `x` anywhere.
pub open spec fn stmt_assigns_to<N>(s: Statement<N>, x: Seq<char>) -> bool
    decreases s,
{
    match s {
        Statement::Expression(e) => assigns_to(e.value, x),
        Statement::Print(p) => assigns_to(p.value, x),
        Statement::Var(v) => match v.initializer {
            Some(e) => assigns_to(e, x),
            None => false,
        },
        Statement::Block(b) => list_assigns_to(b.stmts@, x),
    }
}

pub open spec fn list_assigns_to<N>(ss: Seq<Statement<N>>, x: Seq<char>) -> bool
    decreases ss,
{
    if ss.len() == 0 {
        false
    } else {
        list_assigns_to(ss.drop_last(), x) || stmt_assigns_to(ss.last(), x)
    }
}

/// A statement that never assigns to `x` leaves every binding of `x`
/// outside the innermost scope as it was.
pub proof fn lemma_stmt_keeps_outer_bindings_of<N: Numeric>(s: Statement<N>, st: RunState<N>, x: Seq<char>)
    requires
        st.0.len() >= 1,
        !stmt_assigns_to(s, x),
    ensures
        exec_stmt(s, st).1.0.len() == st.0.len(),
        keeps_bindings_of(st.0.drop_last(), exec_stmt(s, st).1.0.drop_last(), x),
    decreases s, 0int,
{
    let (env, out) = st;
    match s {
        Statement::Expression(e) => {
            lemma_eval_keeps_bindings_of(e.value, env, x);
            lemma_keeps_drop_last(env, eval(e.value, env).1, x);
        },
        Statement::Print(p) => {
            lemma_eval_keeps_bindings_of(p.value, env, x);
            lemma_keeps_drop_last(env, eval(p.value, env).1, x);
        },
        Statement::Var(v) => {
            match v.initializer {
                Some(init) => {
                    lemma_eval_keeps_bindings_of(init, env, x);
                    let (r, env1) = eval(init, env);
                    lemma_keeps_drop_last(env, env1, x);
                    if r is Ok {
                        let d = define_in(env1, v.name.lexeme@, r->Ok_0);
                        assert(d.drop_last() =~= env1.drop_last());
                    }
                },
                None => {
                    let d = define_in(env, v.name.lexeme@, None);
                    assert(d.drop_last() =~= env.drop_last());
                    lemma_keeps_refl(env.drop_last(), x);
                },
            }
        },
        Statement::Block(b) => {
            assert(decreases_to!(b.stmts => b.stmts@));
            let inner = env.push(Seq::empty());
            lemma_list_keeps_outer_bindings_of(b.stmts@, (inner, out), x);
            assert(inner.drop_last() =~= env);
            let (r, (env2, _)) = exec_list(b.stmts@, (inner, out));
            if r is Ok {
                lemma_keeps_drop_last(env, env2.drop_last(), x);
            } else {
                lemma_keeps_refl(env.drop_last(), x);
            }
        },
    }
}

/// Statements that never assign to `x` leave every binding of `x` outside
/// the innermost scope as it was.
pub proof fn lemma_list_keeps_outer_bindings_of<N: Numeric>(ss: Seq<Statement<N>>, st: RunState<N>, x: Seq<char>)
    requires
        st.0.len() >= 1,
        !list_assigns_to(ss, x),
    ensures
        exec_list(ss, st).1.0.len() == st.0.len(),
        keeps_bindings_of(st.0.drop_last(), exec_list(ss, st).1.0.drop_last(), x),
    decreases ss, 1int,
{
    if ss.len() == 0 {
        lemma_keeps_refl(st.0.drop_last(), x);
    } else {
        lemma_list_keeps_outer_bindings_of(ss.drop_last(), st, x);
        let (r, st1) = exec_list(ss.drop_last(), st);
        if r is Ok {
            lemma_stmt_keeps_outer_bindings_of(ss.last(), st1, x);
            lemma_keeps_trans(st.0.drop_last(), st1.0.drop_last(), exec_stmt(ss.last(), st1).1.0.drop_last(), x);
        }
    }
}

/// Scoping: a name that a block never assigns to, even if the block
/// re-declares it with `var`, has after the block exactly the bindings and
/// the value it had before, whether the block ends normally or by an error.
pub proof fn lemma_block_keeps_unassigned<N: Numeric>(
    b: BlockStmt<N>,
    env: Seq<ScopeModel<N>>,
    out: Seq<Seq<char>>,
    x: Seq<char>,
)
    requires
        env.len() >= 1,
        !list_assigns_to(b.stmts@, x),
    ensures
        keeps_bindings_of(env, exec_stmt(Statement::Block(b), (env, out)).1.0, x),
        lookup(exec_stmt(Statement::Block(b), (env, out)).1.0, x) == lookup(env, x),
{
    let inner = env.push(Seq::empty());
    lemma_list_keeps_outer_bindings_of(b.stmts@, (inner, out), x);
    assert(inner.drop_last() =~= env);
    let after = exec_stmt(Statement::Block(b), (env, out)).1.0;
    if exec_list(b.stmts@, (inner, out)).0 is Err {
        lemma_keeps_refl(env, x);
    }
    lemma_keeps_lookup(env, after, x);
}

} // verus!
