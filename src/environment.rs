//! A chain of binding scopes, innermost last.
use crate::expression::{ErrorModel, RuntimeError};
use crate::number::Numeric;
use crate::token::{duplicate_opt, opt_model, LiteralModel, LiteralValue, Token, TokenModel};
use vstd::prelude::*;
use vstd::string::*;

verus! {

/// A binding of one scope, mathematically: a name and its value, which is
/// absent for a variable declared without one.
pub type BindingModel<N> = (Seq<char>, Option<LiteralModel<N>>);

/// One scope, mathematically: its bindings in order.
pub type ScopeModel<N> = Seq<BindingModel<N>>;

/// The last position of `name` in a scope, or -1.
pub open spec fn find_in<N>(scope: ScopeModel<N>, name: Seq<char>) -> int
    decreases scope.len(),
{
    if scope.len() == 0 {
        -1
    } else if scope.last().0 == name {
        scope.len() - 1
    } else {
        find_in(scope.drop_last(), name)
    }
}

/// The innermost scope of the chain that binds `name`, or -1.
pub open spec fn find_scope<N>(scopes: Seq<ScopeModel<N>>, name: Seq<char>) -> int
    decreases scopes.len(),
{
    if scopes.len() == 0 {
        -1
    } else if find_in(scopes.last(), name) >= 0 {
        scopes.len() - 1
    } else {
        find_scope(scopes.drop_last(), name)
    }
}

/// What `name` is bound to, searching outward from the innermost scope;
/// `None` when no scope binds it.
pub open spec fn lookup<N>(scopes: Seq<ScopeModel<N>>, name: Seq<char>) -> Option<Option<LiteralModel<N>>> {
    let s = find_scope(scopes, name);
    if s < 0 {
        None
    } else {
        Some(scopes[s][find_in(scopes[s], name)].1)
    }
}

/// The chain after binding `name` in the innermost scope: an existing
/// binding of that scope is overwritten, outer ones are left alone.
pub open spec fn define_in<N>(scopes: Seq<ScopeModel<N>>, name: Seq<char>, value: Option<LiteralModel<N>>) -> Seq<ScopeModel<N>> {
    let top = scopes.last();
    let j = find_in(top, name);
    let new_top = if j >= 0 {
        top.update(j, (name, value))
    } else {
        top.push((name, value))
    };
    scopes.update(scopes.len() - 1, new_top)
}

/// The chain after assigning to `name` in the innermost scope that binds
/// it; `None` when no scope does.
pub open spec fn assign_in<N>(scopes: Seq<ScopeModel<N>>, name: Seq<char>, value: Option<LiteralModel<N>>) -> Option<Seq<ScopeModel<N>>> {
    let s = find_scope(scopes, name);
    if s < 0 {
        None
    } else {
        let j = find_in(scopes[s], name);
        Some(scopes.update(s, scopes[s].update(j, (name, value))))
    }
}

pub proof fn lemma_find_in<N>(scope: ScopeModel<N>, name: Seq<char>)
    ensures
        -1 <= find_in(scope, name) < scope.len(),
        find_in(scope, name) >= 0 ==> scope[find_in(scope, name)].0 == name,
    decreases scope.len(),
{
    if scope.len() > 0 {
        lemma_find_in(scope.drop_last(), name);
    }
}

pub proof fn lemma_find_scope<N>(scopes: Seq<ScopeModel<N>>, name: Seq<char>)
    ensures
        -1 <= find_scope(scopes, name) < scopes.len(),
        find_scope(scopes, name) >= 0 ==> find_in(scopes[find_scope(scopes, name)], name) >= 0,
    decreases scopes.len(),
{
    if scopes.len() > 0 {
        lemma_find_scope(scopes.drop_last(), name);
    }
}

/// The names a scope binds, in order.
pub open spec fn names_of<N>(scope: ScopeModel<N>) -> Seq<Seq<char>> {
    scope.map_values(|b: BindingModel<N>| b.0)
}

/// Two chains with the same number of scopes, each binding the same names.
pub open spec fn same_names<N>(a: Seq<ScopeModel<N>>, b: Seq<ScopeModel<N>>) -> bool {
    a.len() == b.len() && forall|i: int| 0 <= i < a.len() ==> #[trigger] names_of(a[i]) == names_of(b[i])
}

/// Assignment changes a value, never which names are bound.
pub proof fn lemma_assign_keeps_names<N>(scopes: Seq<ScopeModel<N>>, name: Seq<char>, value: Option<LiteralModel<N>>)
    requires
        assign_in(scopes, name, value) is Some,
    ensures
        same_names(scopes, assign_in(scopes, name, value)->Some_0),
{
    lemma_find_scope(scopes, name);
    let s = find_scope(scopes, name);
    lemma_find_in(scopes[s], name);
    let j = find_in(scopes[s], name);
    let after = assign_in(scopes, name, value)->Some_0;
    assert(names_of(after[s]) =~= names_of(scopes[s]));
    assert forall|i: int| 0 <= i < scopes.len() implies #[trigger] names_of(scopes[i]) == names_of(after[i]) by {
        if i == s {
            assert(names_of(after[s]) =~= names_of(scopes[s]));
        }
    }
}

/// `b` has the scopes and names of `a`, and every binding of `x` in `a`
/// holds the same value in `b`.
pub open spec fn keeps_bindings_of<N>(a: Seq<ScopeModel<N>>, b: Seq<ScopeModel<N>>, x: Seq<char>) -> bool {
    &&& same_names(a, b)
    &&& forall|i: int, j: int|
        0 <= i < a.len() && 0 <= j < a[i].len() && a[i][j].0 == x ==> #[trigger] b[i][j] == a[i][j]
}

pub proof fn lemma_keeps_trans<N>(a: Seq<ScopeModel<N>>, b: Seq<ScopeModel<N>>, c: Seq<ScopeModel<N>>, x: Seq<char>)
    requires
        keeps_bindings_of(a, b, x),
        keeps_bindings_of(b, c, x),
    ensures
        keeps_bindings_of(a, c, x),
{
    assert forall|i: int, j: int| 0 <= i < a.len() && 0 <= j < a[i].len() && a[i][j].0 == x implies #[trigger] c[i][j]
        == a[i][j] by {
        assert(names_of(a[i]) == names_of(b[i]));
        assert(names_of(a[i])[j] == a[i][j].0);
        assert(names_of(b[i])[j] == b[i][j].0);
        assert(b[i][j] == a[i][j]);
    }
}

pub proof fn lemma_keeps_refl<N>(a: Seq<ScopeModel<N>>, x: Seq<char>)
    ensures
        keeps_bindings_of(a, a, x),
{
}

pub proof fn lemma_keeps_drop_last<N>(a: Seq<ScopeModel<N>>, b: Seq<ScopeModel<N>>, x: Seq<char>)
    requires
        keeps_bindings_of(a, b, x),
        a.len() >= 1,
    ensures
        keeps_bindings_of(a.drop_last(), b.drop_last(), x),
{
}

/// Assigning to another name leaves every binding of `x` as it was.
pub proof fn lemma_assign_keeps_other<N>(scopes: Seq<ScopeModel<N>>, name: Seq<char>, value: Option<LiteralModel<N>>, x: Seq<char>)
    requires
        assign_in(scopes, name, value) is Some,
        name != x,
    ensures
        keeps_bindings_of(scopes, assign_in(scopes, name, value)->Some_0, x),
{
    lemma_assign_keeps_names(scopes, name, value);
    lemma_find_scope(scopes, name);
    let s = find_scope(scopes, name);
    lemma_find_in(scopes[s], name);
}

/// Where a name is bound depends on the names alone.
pub proof fn lemma_find_in_names<N>(a: ScopeModel<N>, b: ScopeModel<N>, x: Seq<char>)
    requires
        names_of(a) == names_of(b),
    ensures
        find_in(a, x) == find_in(b, x),
    decreases a.len(),
{
    assert(a.len() == names_of(a).len());
    if a.len() > 0 {
        assert(names_of(a.drop_last()) =~= names_of(a).drop_last());
        assert(names_of(b.drop_last()) =~= names_of(b).drop_last());
        assert(names_of(a)[a.len() - 1] == a.last().0);
        assert(names_of(b)[b.len() - 1] == b.last().0);
        lemma_find_in_names(a.drop_last(), b.drop_last(), x);
    }
}

pub proof fn lemma_find_scope_names<N>(a: Seq<ScopeModel<N>>, b: Seq<ScopeModel<N>>, x: Seq<char>)
    requires
        same_names(a, b),
    ensures
        find_scope(a, x) == find_scope(b, x),
    decreases a.len(),
{
    if a.len() > 0 {
        assert(names_of(a.last()) == names_of(b.last()));
        lemma_find_in_names(a.last(), b.last(), x);
        lemma_find_scope_names(a.drop_last(), b.drop_last(), x);
    }
}

/// Chains that keep the bindings of `x` give the same value for `x`.
pub proof fn lemma_keeps_lookup<N>(a: Seq<ScopeModel<N>>, b: Seq<ScopeModel<N>>, x: Seq<char>)
    requires
        keeps_bindings_of(a, b, x),
    ensures
        lookup(a, x) == lookup(b, x),
{
    lemma_find_scope_names(a, b, x);
    lemma_find_scope(a, x);
    let s = find_scope(a, x);
    if s >= 0 {
        assert(names_of(a[s]) == names_of(b[s]));
        lemma_find_in_names(a[s], b[s], x);
        lemma_find_in(a[s], x);
    }
}

/// The message of the error for a name that no scope binds.
pub open spec fn undefined_message(name: Seq<char>) -> Seq<char> {
    "Undefined variable '"@ + name + "'."@
}

/// The error for a name that no scope binds, raised at that name's token.
pub open spec fn undefined_error<N>(name: TokenModel<N>) -> ErrorModel<N> {
    ErrorModel { token: name, message: undefined_message(name.lexeme) }
}

pub struct Binding<N> {
    pub name: String,
    pub value: Option<LiteralValue<N>>,
}

impl<N> View for Binding<N> {
    type V = BindingModel<N>;

    open spec fn view(&self) -> BindingModel<N> {
        (self.name@, opt_model(self.value))
    }
}

pub open spec fn scope_view<N>(v: Seq<Binding<N>>) -> ScopeModel<N> {
    v.map_values(|b: Binding<N>| b@)
}

/// The bindings of a run, as a stack of scopes: the global scope first, the
/// innermost block's scope last.
pub struct Environment<N> {
    scopes: Vec<Vec<Binding<N>>>,
}

impl<N> View for Environment<N> {
    type V = Seq<ScopeModel<N>>;

    closed spec fn view(&self) -> Seq<ScopeModel<N>> {
        self.scopes@.map_values(|s: Vec<Binding<N>>| scope_view(s@))
    }
}

/// The last position of `name` in a scope.
fn position_in<N>(scope: &Vec<Binding<N>>, name: &String) -> (r: Option<usize>)
    ensures
        match r {
            Some(j) => j == find_in(scope_view(scope@), name@) && j < scope@.len(),
            None => find_in(scope_view(scope@), name@) < 0,
        },
{
    let ghost v = scope_view(scope@);
    let mut j = scope.len();
    assert(v.subrange(0, j as int) =~= v);
    while j > 0
        invariant
            j <= scope@.len(),
            v == scope_view(scope@),
            find_in(v, name@) == find_in(v.subrange(0, j as int), name@),
        decreases j,
    {
        assert(v.subrange(0, j as int).drop_last() =~= v.subrange(0, j - 1));
        if scope[j - 1].name == *name {
            return Some(j - 1);
        }
        j = j - 1;
    }
    None
}

/// The message for an undefined name.
fn undefined(name: &Token<impl Numeric>) -> (r: String)
    ensures
        r@ == undefined_message(name.lexeme@),
{
    let mut m = String::from_str("Undefined variable '");
    m.append(name.lexeme.as_str());
    m.append("'.");
    m
}

impl<N: Numeric> Environment<N> {
    /// There is always a global scope.
    pub open spec fn wf(&self) -> bool {
        self@.len() >= 1
    }

    /// A global environment, or a new innermost scope inside `enclosing`.
    pub fn new(enclosing: Option<Environment<N>>) -> (r: Self)
        requires
            enclosing is Some ==> enclosing->0.wf(),
        ensures
            r.wf(),
            r@ == match enclosing {
                Some(e) => e@.push(Seq::empty()),
                None => seq![Seq::empty()],
            },
    {
        let mut scopes = match enclosing {
            Some(e) => e.scopes,
            None => Vec::new(),
        };
        let ghost before = scopes@;
        scopes.push(Vec::new());
        let r = Environment { scopes };
        assert(scope_view(scopes@.last()@) =~= Seq::<BindingModel<N>>::empty());
        assert(r@ =~= before.map_values(|s: Vec<Binding<N>>| scope_view(s@)).push(Seq::empty()));
        r
    }

    /// The environment without its innermost scope; `None` for the global one.
    pub fn enclosing(self) -> (r: Option<Environment<N>>)
        ensures
            match r {
                Some(e) => self@.len() > 1 && e@ == self@.drop_last() && e.wf(),
                None => self@.len() <= 1,
            },
    {
        let mut scopes = self.scopes;
        if scopes.len() > 1 {
            let ghost before = scopes@;
            scopes.pop();
            let e = Environment { scopes };
            assert(e@ =~= before.map_values(|s: Vec<Binding<N>>| scope_view(s@)).drop_last());
            Some(e)
        } else {
            None
        }
    }

    /// Opens a new innermost scope (block entry).
    pub fn push_scope(&mut self)
        ensures
            final(self)@ == old(self)@.push(Seq::empty()),
    {
        let ghost before = self.scopes@;
        self.scopes.push(Vec::new());
        assert(scope_view(self.scopes@.last()@) =~= Seq::<BindingModel<N>>::empty());
        assert(self@ =~= before.map_values(|s: Vec<Binding<N>>| scope_view(s@)).push(Seq::empty()));
    }

    /// Discards the innermost scope and every binding in it (block exit).
    pub fn pop_scope(&mut self)
        requires
            old(self)@.len() > 1,
        ensures
            final(self)@ == old(self)@.drop_last(),
    {
        let ghost before = self.scopes@;
        self.scopes.pop();
        assert(self@ =~= before.map_values(|s: Vec<Binding<N>>| scope_view(s@)).drop_last());
    }

    /// The innermost scope that binds `name`, and the binding's position in it.
    fn find(&self, name: &String) -> (r: Option<(usize, usize)>)
        ensures
            match r {
                Some((s, j)) => {
                    &&& s == find_scope(self@, name@)
                    &&& s < self@.len()
                    &&& j == find_in(self@[s as int], name@)
                    &&& j < self@[s as int].len()
                },
                None => find_scope(self@, name@) < 0,
            },
    {
        let ghost v = self@;
        let mut i = self.scopes.len();
        assert(v.subrange(0, i as int) =~= v);
        while i > 0
            invariant
                i <= self.scopes@.len(),
                v == self@,
                find_scope(v, name@) == find_scope(v.subrange(0, i as int), name@),
            decreases i,
        {
            assert(scope_view(self.scopes@[i - 1]@) == v[i - 1]);
            assert(v.subrange(0, i as int).drop_last() =~= v.subrange(0, i - 1));
            match position_in(&self.scopes[i - 1], name) {
                Some(j) => {
                    return Some((i - 1, j));
                },
                None => {},
            }
            i = i - 1;
        }
        None
    }

    /// Binds `name` in the innermost scope, overwriting a binding of that
    /// scope; outer scopes are left alone.
    pub fn define(&mut self, name: String, value: Option<LiteralValue<N>>)
        requires
            old(self).wf(),
        ensures
            final(self).wf(),
            final(self)@.len() == old(self)@.len(),
            final(self)@ == define_in(old(self)@, name@, opt_model(value)),
    {
        let ghost v = self@;
        let top = self.scopes.len() - 1;
        let mut scope: Vec<Binding<N>> = Vec::new();
        self.scopes.set_and_swap(top, &mut scope);
        assert(scope_view(scope@) == v[top as int]);
        let ghost b = (name@, opt_model(value));
        let ghost before = scope@;
        match position_in(&scope, &name) {
            Some(j) => {
                scope.set(j, Binding { name, value });
                assert(scope_view(scope@) =~= scope_view(before).update(j as int, b));
            },
            None => {
                scope.push(Binding { name, value });
                assert(scope_view(scope@) =~= scope_view(before).push(b));
            },
        }
        self.scopes.set_and_swap(top, &mut scope);
        assert(self@ =~= define_in(v, b.0, b.1));
    }

    /// The value bound to `name` in the innermost scope that binds it.
    pub fn get(&self, name: &Token<N>) -> (r: Result<Option<LiteralValue<N>>, RuntimeError<N>>)
        ensures
            match r {
                Ok(v) => lookup(self@, name.lexeme@) == Some(opt_model(v)),
                Err(e) => lookup(self@, name.lexeme@) is None && e@ == undefined_error(name@),
            },
    {
        match self.find(&name.lexeme) {
            Some((s, j)) => {
                assert(scope_view(self.scopes@[s as int]@) == self@[s as int]);
                Ok(duplicate_opt(&self.scopes[s][j].value))
            },
            None => Err(RuntimeError { token: name.duplicate(), message: undefined(name) }),
        }
    }

    /// Overwrites the binding of `name` in the innermost scope that binds it;
    /// fails, changing nothing, when no scope does.
    pub fn assign(&mut self, name: &Token<N>, value: Option<LiteralValue<N>>) -> (r: Result<(), RuntimeError<N>>)
        requires
            old(self).wf(),
        ensures
            final(self).wf(),
            final(self)@.len() == old(self)@.len(),
            match r {
                Ok(_) => assign_in(old(self)@, name.lexeme@, opt_model(value)) == Some(final(self)@),
                Err(e) => {
                    &&& assign_in(old(self)@, name.lexeme@, opt_model(value)) is None
                    &&& e@ == undefined_error(name@)
                    &&& final(self)@ == old(self)@
                },
            },
    {
        let ghost v = self@;
        match self.find(&name.lexeme) {
            Some((s, j)) => {
                let mut scope: Vec<Binding<N>> = Vec::new();
                self.scopes.set_and_swap(s, &mut scope);
                assert(scope_view(scope@) == v[s as int]);
                let ghost before = scope@;
                let ghost b = (name.lexeme@, opt_model(value));
                scope.set(j, Binding { name: name.lexeme.clone(), value });
                assert(scope_view(scope@) =~= scope_view(before).update(j as int, b));
                self.scopes.set_and_swap(s, &mut scope);
                assert(self@ =~= v.update(s as int, v[s as int].update(j as int, b)));
                Ok(())
            },
            None => Err(RuntimeError { token: name.duplicate(), message: undefined(name) }),
        }
    }

    /// A copy of the environment, every scope and binding included.
    pub fn duplicate(&self) -> (r: Self)
        ensures
            r@ == self@,
    {
        let mut scopes: Vec<Vec<Binding<N>>> = Vec::new();
        let mut i: usize = 0;
        while i < self.scopes.len()
            invariant
                i <= self.scopes@.len(),
                scopes@.len() == i,
                forall|k: int| 0 <= k < i ==> scope_view(#[trigger] scopes@[k]@) == scope_view(self.scopes@[k]@),
            decreases self.scopes.len() - i,
        {
            let src = &self.scopes[i];
            let mut copy: Vec<Binding<N>> = Vec::new();
            let mut j: usize = 0;
            while j < src.len()
                invariant
                    j <= src@.len(),
                    copy@.len() == j,
                    forall|k: int| 0 <= k < j ==> (#[trigger] copy@[k])@ == src@[k]@,
                decreases src.len() - j,
            {
                let b = &src[j];
                copy.push(Binding { name: b.name.clone(), value: duplicate_opt(&b.value) });
                j = j + 1;
            }
            assert(scope_view(copy@) =~= scope_view(src@));
            scopes.push(copy);
            i = i + 1;
        }
        let r = Environment { scopes };
        assert(r@ =~= self@);
        r
    }
}

} // verus!
