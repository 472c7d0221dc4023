//! The resolver: checks the scoping rules of a program and records, for
//! each variable read or assigned, how many scopes out its binding is.
use vstd::prelude::*;
use crate::ast::{same_expr, Expr, ExprView, Stmt, StmtView};
use crate::token::TokenView;
use crate::environment::{bindings, distinct_names, lemma_bindings, lemma_bindings_update, position_of};
use crate::parser::stmt_views;

verus! {

/// A scoping error.
pub struct ResolveError {
    pub message: String,
}

/// What the resolver knows: the scopes open, innermost last, with whether
/// each name in them is defined yet; and the depth recorded for each
/// expression resolved.
pub struct ResolverState {
    pub scopes: Seq<Map<Seq<char>, bool>>,
    pub locals: Map<ExprView, usize>,
}

/// The outcome of a resolution: success, or the message of the error.
pub open spec fn resolve_outcome(r: Result<(), ResolveError>) -> Result<(), Seq<char>> {
    match r {
        Ok(()) => Ok(()),
        Err(e) => Err(e.message@),
    }
}

/// How many scopes out from the innermost one the name is bound.
pub open spec fn depth_of(scopes: Seq<Map<Seq<char>, bool>>, name: Seq<char>) -> Option<int>
    decreases scopes.len(),
{
    if scopes.len() == 0 {
        None
    } else if scopes.last().contains_key(name) {
        Some(0)
    } else {
        match depth_of(scopes.drop_last(), name) {
            Some(d) => Some(d + 1),
            None => None,
        }
    }
}

/// Records the depth of `name` for `e`, when some scope binds the name.
pub open spec fn local_resolved(st: ResolverState, e: ExprView, name: Seq<char>) -> ResolverState {
    match depth_of(st.scopes, name) {
        Some(d) => ResolverState { scopes: st.scopes, locals: st.locals.insert(e, d as usize) },
        None => st,
    }
}

/// Declaring `name` in the innermost scope, not yet defined. An error when
/// that scope already has the name (which then is not defined any more).
pub open spec fn declared(st: ResolverState, name: Seq<char>) -> (Result<(), Seq<char>>, ResolverState) {
    if st.scopes.len() == 0 {
        (Ok(()), st)
    } else {
        let last = st.scopes.last();
        let st2 = ResolverState {
            scopes: st.scopes.update(st.scopes.len() - 1, last.insert(name, false)),
            locals: st.locals,
        };
        if last.contains_key(name) {
            (Err("Already a variable with this name in this scope."@), st2)
        } else {
            (Ok(()), st2)
        }
    }
}

/// Marks `name` defined in the innermost scope.
pub open spec fn defined(st: ResolverState, name: Seq<char>) -> ResolverState {
    if st.scopes.len() == 0 {
        st
    } else {
        ResolverState {
            scopes: st.scopes.update(st.scopes.len() - 1, st.scopes.last().insert(name, true)),
            locals: st.locals,
        }
    }
}

/// Opens a scope.
pub open spec fn scope_begun(st: ResolverState) -> ResolverState {
    ResolverState { scopes: st.scopes.push(Map::empty()), locals: st.locals }
}

/// Closes the innermost scope, if there is one.
pub open spec fn scope_ended(st: ResolverState) -> ResolverState {
    if st.scopes.len() == 0 {
        st
    } else {
        ResolverState { scopes: st.scopes.drop_last(), locals: st.locals }
    }
}

/// Resolving an expression: the variables it reads or assigns, left to
/// right, each after what it is computed from.
pub open spec fn resolve_expr(st: ResolverState, e: ExprView) -> (Result<(), Seq<char>>, ResolverState)
    decreases e,
{
    match e {
        ExprView::Unary { operator, right } => resolve_expr(st, *right),
        ExprView::Grouping(inner) => resolve_expr(st, *inner),
        ExprView::Literal(_) => (Ok(()), st),
        ExprView::Variable(tok) => if st.scopes.len() > 0 && st.scopes.last().contains_key(tok.lexeme)
            && !st.scopes.last()[tok.lexeme] {
            (Err("Can't read local variable in its own initializer."@), st)
        } else {
            (Ok(()), local_resolved(st, e, tok.lexeme))
        },
        ExprView::Assign { left, right } => {
            let (r, st1) = resolve_expr(st, *right);
            match r {
                Err(m) => (Err(m), st1),
                Ok(()) => (Ok(()), local_resolved(st1, e, left.lexeme)),
            }
        },
        ExprView::Binary { left, operator, right } => {
            let (r, st1) = resolve_expr(st, *left);
            match r {
                Err(m) => (Err(m), st1),
                Ok(()) => resolve_expr(st1, *right),
            }
        },
        ExprView::Logical { left, operator, right } => {
            let (r, st1) = resolve_expr(st, *left);
            match r {
                Err(m) => (Err(m), st1),
                Ok(()) => resolve_expr(st1, *right),
            }
        },
    }
}

/// Resolving a statement.
pub open spec fn resolve_stmt(st: ResolverState, s: StmtView) -> (Result<(), Seq<char>>, ResolverState)
    decreases s,
{
    match s {
        StmtView::Expression(e) => resolve_expr(st, e),
        StmtView::Print(e) => resolve_expr(st, e),
        StmtView::Var { identifier, expression } => {
            let (r, st1) = declared(st, identifier);
            match r {
                Err(m) => (Err(m), st1),
                Ok(()) => match expression {
                    Some(init) => {
                        let (r2, st2) = resolve_expr(st1, init);
                        match r2 {
                            Err(m) => (Err(m), st2),
                            Ok(()) => (Ok(()), defined(st2, identifier)),
                        }
                    },
                    None => (Ok(()), defined(st1, identifier)),
                },
            }
        },
        StmtView::Block(stmts) => {
            let (r, st1) = resolve_stmts(scope_begun(st), stmts);
            match r {
                Err(m) => (Err(m), st1),
                Ok(()) => (Ok(()), scope_ended(st1)),
            }
        },
        StmtView::If { condition, then_branch, else_branch } => {
            let (r, st1) = resolve_expr(st, condition);
            match r {
                Err(m) => (Err(m), st1),
                Ok(()) => {
                    let (r2, st2) = resolve_stmt(st1, *then_branch);
                    match r2 {
                        Err(m) => (Err(m), st2),
                        Ok(()) => match else_branch {
                            Some(b) => resolve_stmt(st2, *b),
                            None => (Ok(()), st2),
                        },
                    }
                },
            }
        },
        StmtView::While { condition, body } => {
            let (r, st1) = resolve_expr(st, condition);
            match r {
                Err(m) => (Err(m), st1),
                Ok(()) => resolve_stmt(st1, *body),
            }
        },
    }
}

/// Resolving statements in order, stopping at the first error.
pub open spec fn resolve_stmts(st: ResolverState, stmts: Seq<StmtView>) -> (
    Result<(), Seq<char>>,
    ResolverState,
)
    decreases stmts,
{
    if stmts.len() == 0 {
        (Ok(()), st)
    } else {
        let (r, st1) = resolve_stmt(st, stmts[0]);
        match r {
            Err(m) => (Err(m), st1),
            Ok(()) => resolve_stmts(st1, stmts.drop_first()),
        }
    }
}

/// The resolver: the depth recorded for each expression resolved, and the
/// scopes open.
pub struct Resolver {
    pub locals: Vec<(Expr, usize)>,
    scopes: Vec<Vec<(String, bool)>>,
}

/// Adds `name` with `value` to a scope's list, or replaces its value there.
/// Tells whether the name was there.
fn put<K: View, V>(vars: &mut Vec<(K, V)>, pos: Option<usize>, key: K, value: V) -> (had: bool)
    requires
        distinct_names(old(vars)@),
        match pos {
            Some(i) => i < old(vars)@.len() && old(vars)@[i as int].0@ == key@,
            None => forall|i: int| 0 <= i < old(vars)@.len() ==> #[trigger] old(vars)@[i].0@ != key@,
        },
    ensures
        distinct_names(final(vars)@),
        bindings(final(vars)@) == bindings(old(vars)@).insert(key@, value),
        had == bindings(old(vars)@).contains_key(key@),
{
    let ghost old_vars = vars@;
    let ghost k = key@;
    proof {
        lemma_bindings(old_vars, k);
    }
    match pos {
        Some(i) => {
            proof {
                assert(old_vars[i as int].0@ == k);
                lemma_bindings_update(old_vars, i as int, (key, value));
            }
            vars.set(i, (key, value));
            true
        },
        None => {
            vars.push((key, value));
            proof {
                assert(vars@.drop_last() =~= old_vars);
                assert forall|a: int, b: int| 0 <= a < b < vars@.len() implies vars@[a].0@ != vars@[b].0@ by {
                    if b == vars@.len() - 1 {
                        assert(old_vars[a].0@ != k);
                    }
                }
            }
            false
        },
    }
}

impl Resolver {
    /// What the resolver knows, by views.
    pub closed spec fn state(&self) -> ResolverState {
        ResolverState {
            scopes: Seq::new(self.scopes@.len(), |i: int| bindings(self.scopes@[i]@)),
            locals: bindings(self.locals@),
        }
    }

    /// No expression is recorded twice, and no scope lists a name twice.
    pub closed spec fn wf(&self) -> bool {
        &&& distinct_names(self.locals@)
        &&& forall|i: int| 0 <= i < self.scopes@.len() ==> distinct_names(#[trigger] self.scopes@[i]@)
    }

    /// A resolver with no scope open and nothing recorded.
    pub fn new() -> (r: Self)
        ensures
            r.wf(),
            r.state().scopes.len() == 0,
            r.state().locals == Map::<ExprView, usize>::empty(),
    {
        let r = Resolver { locals: Vec::new(), scopes: Vec::new() };
        assert(bindings(r.locals@) =~= Map::<ExprView, usize>::empty());
        r
    }

    fn begin_scope(&mut self)
        requires
            old(self).wf(),
        ensures
            final(self).wf(),
            final(self).state() == scope_begun(old(self).state()),
    {
        self.scopes.push(Vec::new());
        proof {
            let e: Seq<(String, bool)> = Seq::empty();
            assert(bindings(e) =~= Map::<Seq<char>, bool>::empty());
            assert(self.state().scopes =~= old(self).state().scopes.push(Map::empty()));
        }
    }

    fn end_scope(&mut self)
        requires
            old(self).wf(),
        ensures
            final(self).wf(),
            final(self).state() == scope_ended(old(self).state()),
    {
        self.scopes.pop();
        proof {
            if old(self).scopes@.len() > 0 {
                assert(self.state().scopes =~= old(self).state().scopes.drop_last());
            } else {
                assert(self.state().scopes =~= old(self).state().scopes);
            }
        }
    }

    /// Puts `name`, not yet defined, in the innermost scope; an error when it
    /// is there already.
    fn declare(&mut self, name: String) -> (r: Result<(), ResolveError>)
        requires
            old(self).wf(),
        ensures
            final(self).wf(),
            (resolve_outcome(r), final(self).state()) == declared(old(self).state(), name@),
    {
        let ghost k = name@;
        match self.scopes.pop() {
            None => Ok(()),
            Some(mut scope) => {
                let pos = position_of(&scope, &name);
                let had = put(&mut scope, pos, name, false);
                self.scopes.push(scope);
                proof {
                    let old_st = old(self).state();
                    assert(self.state().scopes =~= old_st.scopes.update(
                        old_st.scopes.len() - 1,
                        old_st.scopes.last().insert(k, false),
                    ));
                }
                if had {
                    Err(
                        ResolveError {
                            message: String::from_str(
                                "Already a variable with this name in this scope.",
                            ),
                        },
                    )
                } else {
                    Ok(())
                }
            },
        }
    }

    /// Marks `name` defined in the innermost scope.
    fn define(&mut self, name: String)
        requires
            old(self).wf(),
        ensures
            final(self).wf(),
            final(self).state() == defined(old(self).state(), name@),
    {
        let ghost k = name@;
        match self.scopes.pop() {
            None => {},
            Some(mut scope) => {
                let pos = position_of(&scope, &name);
                put(&mut scope, pos, name, true);
                self.scopes.push(scope);
                proof {
                    let old_st = old(self).state();
                    assert(self.state().scopes =~= old_st.scopes.update(
                        old_st.scopes.len() - 1,
                        old_st.scopes.last().insert(k, true),
                    ));
                }
            },
        }
    }

    /// Records for `expr` how many scopes out `name` is bound, if any scope
    /// binds it.
    fn resolve_local(&mut self, expr: &Expr, name: &String)
        requires
            old(self).wf(),
        ensures
            final(self).wf(),
            final(self).state() == local_resolved(old(self).state(), expr@, name@),
    {
        let ghost scopes = self.state().scopes;
        let n = self.scopes.len();
        let mut i: usize = 0;
        assert(scopes.take(n as int) =~= scopes);
        while i < n
            invariant
                self == old(self),
                self.wf(),
                scopes == self.state().scopes,
                n == scopes.len(),
                i <= n,
                depth_of(scopes, name@) == match depth_of(scopes.take(n - i), name@) {
                    Some(d) => Some(d + i),
                    None => None,
                },
            decreases n - i,
        {
            let idx = n - 1 - i;
            let pos = position_of(&self.scopes[idx], name);
            proof {
                lemma_bindings(self.scopes@[idx as int]@, name@);
                assert(scopes.take(n - i).last() == scopes[idx as int]);
                assert(scopes.take(n - i).drop_last() =~= scopes.take(n - i - 1));
            }
            if pos.is_some() {
                proof {
                    let j = pos->0 as int;
                    assert(self.scopes@[idx as int]@[j].0@ == name@);
                }
                let lpos = self.find_local(expr);
                put(&mut self.locals, lpos, expr.clone(), i);
                proof {
                    assert(self.state().scopes =~= scopes);
                }
                return;
            }
            i += 1;
        }
        proof {
            assert(scopes.take(0) =~= Seq::<Map<Seq<char>, bool>>::empty());
        }
    }

    /// The position of the record for `expr`, if there is one.
    fn find_local(&self, expr: &Expr) -> (r: Option<usize>)
        ensures
            match r {
                Some(i) => i < self.locals@.len() && self.locals@[i as int].0@ == expr@,
                None => forall|i: int| 0 <= i < self.locals@.len() ==> #[trigger] self.locals@[i].0@ != expr@,
            },
    {
        let mut i: usize = 0;
        while i < self.locals.len()
            invariant
                i <= self.locals@.len(),
                forall|j: int| 0 <= j < i ==> #[trigger] self.locals@[j].0@ != expr@,
            decreases self.locals@.len() - i,
        {
            if same_expr(&self.locals[i].0, expr) {
                return Some(i);
            }
            i += 1;
        }
        None
    }
}

impl Resolver {
    /// Resolves an expression: reports a variable read in its own
    /// initializer, and records the depth of each variable read or assigned.
    pub fn resolve_expression(&mut self, expr: &Expr) -> (r: Result<(), ResolveError>)
        requires
            old(self).wf(),
        ensures
            final(self).wf(),
            (resolve_outcome(r), final(self).state()) == resolve_expr(old(self).state(), expr@),
        decreases expr,
    {
        match expr {
            Expr::Unary { operator: _, right } => self.resolve_expression(right),
            Expr::Grouping(e) => self.resolve_expression(e),
            Expr::Literal(_) => Ok(()),
            Expr::Variable(token) => {
                let n = self.scopes.len();
                if n > 0 {
                    let pos = position_of(&self.scopes[n - 1], &token.lexeme);
                    proof {
                        let last = self.scopes@[n - 1]@;
                        lemma_bindings(last, token.lexeme@);
                        assert(self.state().scopes.last() == bindings(last));
                    }
                    match pos {
                        Some(j) => {
                            proof {
                                assert(self.scopes@[n - 1]@[j as int].0@ == token.lexeme@);
                            }
                            if !self.scopes[n - 1][j].1 {
                                return Err(
                                    ResolveError {
                                        message: String::from_str(
                                            "Can't read local variable in its own initializer.",
                                        ),
                                    },
                                );
                            }
                        },
                        None => {},
                    }
                }
                self.resolve_local(expr, &token.lexeme);
                Ok(())
            },
            Expr::Assign { left, right } => {
                match self.resolve_expression(right) {
                    Ok(()) => {},
                    Err(e) => return Err(e),
                }
                self.resolve_local(expr, &left.lexeme);
                Ok(())
            },
            Expr::Logical { left, operator: _, right } => {
                match self.resolve_expression(left) {
                    Ok(()) => {},
                    Err(e) => return Err(e),
                }
                self.resolve_expression(right)
            },
            Expr::Binary { left, operator: _, right } => {
                match self.resolve_expression(left) {
                    Ok(()) => {},
                    Err(e) => return Err(e),
                }
                self.resolve_expression(right)
            },
        }
    }

    /// Resolves a statement: declares and defines the variables it
    /// introduces, opens and closes the scopes of blocks.
    pub fn resolve_statement(&mut self, stmt: &Stmt) -> (r: Result<(), ResolveError>)
        requires
            old(self).wf(),
        ensures
            final(self).wf(),
            (resolve_outcome(r), final(self).state()) == resolve_stmt(old(self).state(), stmt@),
        decreases stmt,
    {
        match stmt {
            Stmt::Expression(expr) => self.resolve_expression(expr),
            Stmt::Print(expr) => self.resolve_expression(expr),
            Stmt::Var { identifier, expression } => {
                match self.declare(identifier.clone()) {
                    Ok(()) => {},
                    Err(e) => return Err(e),
                }
                match expression {
                    Some(init) => {
                        match self.resolve_expression(init) {
                            Ok(()) => {},
                            Err(e) => return Err(e),
                        }
                    },
                    None => {},
                }
                self.define(identifier.clone());
                Ok(())
            },
            Stmt::Block(stmts) => {
                proof {
                    let inner = match stmt@ {
                        StmtView::Block(s) => s,
                        _ => Seq::empty(),
                    };
                    assert(inner =~= stmt_views(stmts@));
                }
                self.begin_scope();
                match self.resolve_statements(stmts) {
                    Ok(()) => {},
                    Err(e) => return Err(e),
                }
                self.end_scope();
                Ok(())
            },
            Stmt::If { condition, then_branch, else_branch } => {
                match self.resolve_expression(condition) {
                    Ok(()) => {},
                    Err(e) => return Err(e),
                }
                match self.resolve_statement(then_branch) {
                    Ok(()) => {},
                    Err(e) => return Err(e),
                }
                match else_branch {
                    Some(branch) => self.resolve_statement(branch),
                    None => Ok(()),
                }
            },
            Stmt::While { condition, body } => {
                match self.resolve_expression(condition) {
                    Ok(()) => {},
                    Err(e) => return Err(e),
                }
                self.resolve_statement(body)
            },
        }
    }

    /// Resolves statements in order, stopping at the first error.
    pub fn resolve_statements(&mut self, stmts: &Vec<Stmt>) -> (r: Result<(), ResolveError>)
        requires
            old(self).wf(),
        ensures
            final(self).wf(),
            (resolve_outcome(r), final(self).state()) == resolve_stmts(
                old(self).state(),
                stmt_views(stmts@),
            ),
        decreases stmts,
    {
        let ghost views = stmt_views(stmts@);
        let mut i: usize = 0;
        assert(views.subrange(0, views.len() as int) =~= views);
        while i < stmts.len()
            invariant
                self.wf(),
                views == stmt_views(stmts@),
                i <= stmts@.len(),
                resolve_stmts(self.state(), views.subrange(i as int, views.len() as int))
                    == resolve_stmts(old(self).state(), views),
            decreases stmts@.len() - i,
        {
            let ghost rest = views.subrange(i as int, views.len() as int);
            assert(rest[0] == stmts@[i as int]@);
            assert(rest.drop_first() =~= views.subrange(i + 1, views.len() as int));
            match self.resolve_statement(&stmts[i]) {
                Ok(()) => {},
                Err(e) => return Err(e),
            }
            i += 1;
        }
        assert(views.subrange(i as int, views.len() as int) =~= Seq::<StmtView>::empty());
        Ok(())
    }
}

/// Declaring a name twice in the same scope is an error.
pub proof fn law_redeclaration_fails(st: ResolverState, name: Seq<char>)
    requires
        st.scopes.len() > 0,
    ensures
        declared(declared(st, name).1, name).0 == Err::<(), Seq<char>>(
            "Already a variable with this name in this scope."@,
        ),
{
    let st2 = declared(st, name).1;
    assert(st2.scopes.last() == st.scopes.last().insert(name, false));
}

/// The depth recorded for a name counts the scopes from the innermost one
/// out to the one that binds it; no scope inside that one binds it.
pub proof fn law_depth_is_innermost_binding(scopes: Seq<Map<Seq<char>, bool>>, name: Seq<char>)
    ensures
        match depth_of(scopes, name) {
            Some(d) => {
                &&& 0 <= d < scopes.len()
                &&& scopes[scopes.len() - 1 - d].contains_key(name)
                &&& forall|j: int|
                    scopes.len() - 1 - d < j < scopes.len() ==> !(#[trigger] scopes[j]).contains_key(name)
            },
            None => forall|j: int| 0 <= j < scopes.len() ==> !(#[trigger] scopes[j]).contains_key(name),
        },
    decreases scopes.len(),
{
    if scopes.len() > 0 {
        let rest = scopes.drop_last();
        law_depth_is_innermost_binding(rest, name);
        assert forall|j: int| 0 <= j < rest.len() implies rest[j] == scopes[j] by {}
        if !scopes.last().contains_key(name) {
            match depth_of(rest, name) {
                Some(d) => {
                    assert(scopes[scopes.len() - 1 - (d + 1)] == rest[rest.len() - 1 - d]);
                    assert forall|j: int|
                        scopes.len() - 1 - (d + 1) < j < scopes.len() implies !(
                        #[trigger] scopes[j]).contains_key(name) by {
                        if j < scopes.len() - 1 {
                            assert(scopes[j] == rest[j]);
                        }
                    }
                },
                None => {
                    assert forall|j: int| 0 <= j < scopes.len() implies !(
                    #[trigger] scopes[j]).contains_key(name) by {
                        if j < scopes.len() - 1 {
                            assert(scopes[j] == rest[j]);
                        }
                    }
                },
            }
        }
    }
}

/// Resolving an expression leaves the scopes as they were.
pub proof fn law_expression_keeps_scopes(st: ResolverState, e: ExprView)
    ensures
        resolve_expr(st, e).1.scopes == st.scopes,
    decreases e,
{
    match e {
        ExprView::Unary { operator, right } => law_expression_keeps_scopes(st, *right),
        ExprView::Grouping(inner) => law_expression_keeps_scopes(st, *inner),
        ExprView::Literal(_) => {},
        ExprView::Variable(tok) => {},
        ExprView::Assign { left, right } => law_expression_keeps_scopes(st, *right),
        ExprView::Binary { left, operator, right } => {
            law_expression_keeps_scopes(st, *left);
            law_expression_keeps_scopes(resolve_expr(st, *left).1, *right);
        },
        ExprView::Logical { left, operator, right } => {
            law_expression_keeps_scopes(st, *left);
            law_expression_keeps_scopes(resolve_expr(st, *left).1, *right);
        },
    }
}

/// Two scope lists agree on all but their innermost scope.
pub open spec fn same_outer_scopes(a: Seq<Map<Seq<char>, bool>>, b: Seq<Map<Seq<char>, bool>>) -> bool {
    &&& a.len() == b.len()
    &&& forall|i: int| 0 <= i < a.len() - 1 ==> #[trigger] a[i] == b[i]
}

proof fn lemma_statement_scopes(st: ResolverState, s: StmtView)
    ensures
        resolve_stmt(st, s).0 is Ok ==> same_outer_scopes(resolve_stmt(st, s).1.scopes, st.scopes),
        s is Block && resolve_stmt(st, s).0 is Ok ==> resolve_stmt(st, s).1.scopes == st.scopes,
    decreases s,
{
    match s {
        StmtView::Expression(e) => law_expression_keeps_scopes(st, e),
        StmtView::Print(e) => law_expression_keeps_scopes(st, e),
        StmtView::Var { identifier, expression } => {
            let st1 = declared(st, identifier).1;
            match expression {
                Some(init) => law_expression_keeps_scopes(st1, init),
                None => {},
            }
        },
        StmtView::Block(stmts) => {
            let begun = scope_begun(st);
            lemma_statements_scopes(begun, stmts);
            let st1 = resolve_stmts(begun, stmts).1;
            if resolve_stmts(begun, stmts).0 is Ok {
                assert(st1.scopes.drop_last() =~= st.scopes) by {
                    assert forall|i: int| 0 <= i < st.scopes.len() implies st1.scopes[i] == st.scopes[i] by {
                        assert(begun.scopes[i] == st.scopes[i]);
                    }
                }
            }
        },
        StmtView::If { condition, then_branch, else_branch } => {
            law_expression_keeps_scopes(st, condition);
            let st1 = resolve_expr(st, condition).1;
            lemma_statement_scopes(st1, *then_branch);
            match else_branch {
                Some(b) => lemma_statement_scopes(resolve_stmt(st1, *then_branch).1, *b),
                None => {},
            }
        },
        StmtView::While { condition, body } => {
            law_expression_keeps_scopes(st, condition);
            lemma_statement_scopes(resolve_expr(st, condition).1, *body);
        },
    }
}

proof fn lemma_statements_scopes(st: ResolverState, stmts: Seq<StmtView>)
    ensures
        resolve_stmts(st, stmts).0 is Ok ==> same_outer_scopes(resolve_stmts(st, stmts).1.scopes, st.scopes),
    decreases stmts,
{
    if stmts.len() > 0 {
        lemma_statement_scopes(st, stmts[0]);
        lemma_statements_scopes(resolve_stmt(st, stmts[0]).1, stmts.drop_first());
    }
}

/// A block that resolves leaves the scopes as they were before it: what it
/// declares goes out of scope with it.
pub proof fn law_block_restores_scopes(st: ResolverState, stmts: Seq<StmtView>)
    requires
        resolve_stmt(st, StmtView::Block(stmts)).0 is Ok,
    ensures
        resolve_stmt(st, StmtView::Block(stmts)).1.scopes == st.scopes,
{
    lemma_statement_scopes(st, StmtView::Block(stmts));
}


/// The variables an expression reads, left to right (an assignment's target
/// is written, not read).
pub open spec fn reads(e: ExprView) -> Seq<TokenView>
    decreases e,
{
    match e {
        ExprView::Unary { right, .. } => reads(*right),
        ExprView::Grouping(inner) => reads(*inner),
        ExprView::Literal(_) => Seq::empty(),
        ExprView::Variable(tok) => seq![tok],
        ExprView::Assign { right, .. } => reads(*right),
        ExprView::Binary { left, right, .. } => reads(*left) + reads(*right),
        ExprView::Logical { left, right, .. } => reads(*left) + reads(*right),
    }
}

/// `name` is declared in the innermost scope and not yet defined.
pub open spec fn being_declared(scopes: Seq<Map<Seq<char>, bool>>, name: Seq<char>) -> bool {
    scopes.len() > 0 && scopes.last().contains_key(name) && !scopes.last()[name]
}

/// An expression that reads, anywhere in it, a variable of the innermost
/// scope still being declared is refused with the own-initializer error.
pub proof fn law_read_of_undefined_local_fails(st: ResolverState, e: ExprView, i: int)
    requires
        0 <= i < reads(e).len(),
        being_declared(st.scopes, reads(e)[i].lexeme),
    ensures
        resolve_expr(st, e).0 == Err::<(), Seq<char>>(
            "Can't read local variable in its own initializer."@,
        ),
    decreases e,
{
    match e {
        ExprView::Unary { right, .. } => law_read_of_undefined_local_fails(st, *right, i),
        ExprView::Grouping(inner) => law_read_of_undefined_local_fails(st, *inner, i),
        ExprView::Literal(_) => {},
        ExprView::Variable(tok) => {},
        ExprView::Assign { right, .. } => law_read_of_undefined_local_fails(st, *right, i),
        ExprView::Binary { left, right, .. } => {
            let n = reads(*left).len() as int;
            if i < n {
                law_read_of_undefined_local_fails(st, *left, i);
            } else {
                let (r, st1) = resolve_expr(st, *left);
                lemma_expression_error(st, *left);
                law_expression_keeps_scopes(st, *left);
                law_read_of_undefined_local_fails(st1, *right, i - n);
            }
        },
        ExprView::Logical { left, right, .. } => {
            let n = reads(*left).len() as int;
            if i < n {
                law_read_of_undefined_local_fails(st, *left, i);
            } else {
                let (r, st1) = resolve_expr(st, *left);
                lemma_expression_error(st, *left);
                law_expression_keeps_scopes(st, *left);
                law_read_of_undefined_local_fails(st1, *right, i - n);
            }
        },
    }
}

/// The one error resolving an expression can meet is the own-initializer one.
proof fn lemma_expression_error(st: ResolverState, e: ExprView)
    ensures
        resolve_expr(st, e).0 is Err ==> resolve_expr(st, e).0 == Err::<(), Seq<char>>(
            "Can't read local variable in its own initializer."@,
        ),
    decreases e,
{
    match e {
        ExprView::Unary { right, .. } => lemma_expression_error(st, *right),
        ExprView::Grouping(inner) => lemma_expression_error(st, *inner),
        ExprView::Literal(_) => {},
        ExprView::Variable(tok) => {},
        ExprView::Assign { right, .. } => lemma_expression_error(st, *right),
        ExprView::Binary { left, right, .. } => {
            lemma_expression_error(st, *left);
            lemma_expression_error(resolve_expr(st, *left).1, *right);
        },
        ExprView::Logical { left, right, .. } => {
            lemma_expression_error(st, *left);
            lemma_expression_error(resolve_expr(st, *left).1, *right);
        },
    }
}


/// A recorded depth of a variable read, correct for the scopes, stays
/// recorded while an expression is resolved.
proof fn lemma_locals_kept(st: ResolverState, e: ExprView, tok: TokenView)
    requires
        depth_of(st.scopes, tok.lexeme) is Some,
        st.locals.contains_key(ExprView::Variable(tok)),
        st.locals[ExprView::Variable(tok)] == depth_of(st.scopes, tok.lexeme)->0 as usize,
    ensures
        resolve_expr(st, e).1.locals.contains_key(ExprView::Variable(tok)),
        resolve_expr(st, e).1.locals[ExprView::Variable(tok)] == depth_of(st.scopes, tok.lexeme)->0 as usize,
    decreases e,
{
    match e {
        ExprView::Unary { right, .. } => lemma_locals_kept(st, *right, tok),
        ExprView::Grouping(inner) => lemma_locals_kept(st, *inner, tok),
        ExprView::Literal(_) => {},
        ExprView::Variable(t2) => {},
        ExprView::Assign { right, .. } => {
            lemma_locals_kept(st, *right, tok);
            law_expression_keeps_scopes(st, *right);
        },
        ExprView::Binary { left, right, .. } => {
            lemma_locals_kept(st, *left, tok);
            law_expression_keeps_scopes(st, *left);
            lemma_locals_kept(resolve_expr(st, *left).1, *right, tok);
        },
        ExprView::Logical { left, right, .. } => {
            lemma_locals_kept(st, *left, tok);
            law_expression_keeps_scopes(st, *left);
            lemma_locals_kept(resolve_expr(st, *left).1, *right, tok);
        },
    }
}

/// Resolving an expression records, for every variable it reads that some
/// scope binds, the depth of the innermost scope binding it.
pub proof fn law_reads_are_recorded(st: ResolverState, e: ExprView, i: int)
    requires
        resolve_expr(st, e).0 is Ok,
        0 <= i < reads(e).len(),
        depth_of(st.scopes, reads(e)[i].lexeme) is Some,
    ensures
        resolve_expr(st, e).1.locals.contains_key(ExprView::Variable(reads(e)[i])),
        resolve_expr(st, e).1.locals[ExprView::Variable(reads(e)[i])] == depth_of(
            st.scopes,
            reads(e)[i].lexeme,
        )->0 as usize,
    decreases e,
{
    match e {
        ExprView::Unary { right, .. } => law_reads_are_recorded(st, *right, i),
        ExprView::Grouping(inner) => law_reads_are_recorded(st, *inner, i),
        ExprView::Literal(_) => {},
        ExprView::Variable(tok) => {},
        ExprView::Assign { right, .. } => {
            law_reads_are_recorded(st, *right, i);
            law_expression_keeps_scopes(st, *right);
        },
        ExprView::Binary { left, right, .. } => {
            let n = reads(*left).len() as int;
            let st1 = resolve_expr(st, *left).1;
            law_expression_keeps_scopes(st, *left);
            if i < n {
                law_reads_are_recorded(st, *left, i);
                lemma_locals_kept(st1, *right, reads(*left)[i]);
            } else {
                law_reads_are_recorded(st1, *right, i - n);
            }
        },
        ExprView::Logical { left, right, .. } => {
            let n = reads(*left).len() as int;
            let st1 = resolve_expr(st, *left).1;
            law_expression_keeps_scopes(st, *left);
            if i < n {
                law_reads_are_recorded(st, *left, i);
                lemma_locals_kept(st1, *right, reads(*left)[i]);
            } else {
                law_reads_are_recorded(st1, *right, i - n);
            }
        },
    }
}

} // verus!
