//! Running statements one decision at a time. The executor decides what to
//! evaluate, print, define, and which scope to open or close; the caller
//! evaluates expressions and holds the values, and tells the executor how
//! each evaluation ended.
use vstd::prelude::*;
use crate::ast::{Expr, ExprView, Stmt, StmtView};
use crate::environment::RuntimeError;

verus! {

/// A piece of work left to do.
pub enum Task<'a> {
    /// Run a statement.
    Run(&'a Stmt),
    /// Finish a statement with the value just evaluated for it.
    Finish(&'a Stmt),
    /// Close the innermost scope.
    CloseScope,
}

/// What the caller is to do next.
pub enum ExecAction<'a> {
    /// Evaluate the expression, keep its value, and report whether it was
    /// truthy or what error it met.
    Evaluate(&'a Expr),
    /// Print the value just evaluated.
    Print,
    /// Define the name, in the innermost scope, as the value just evaluated.
    Define(&'a String),
    /// Define the name, in the innermost scope, as nil.
    DefineNil(&'a String),
    /// Open a scope inside the innermost one.
    OpenScope,
    /// Close the innermost scope.
    CloseScope,
    /// The run is over, with this result.
    Done(Result<(), RuntimeError>),
}

/// A task with its statement taken by its view.
pub enum TaskView {
    Run(StmtView),
    Finish(StmtView),
    CloseScope,
}

/// An action with its parts taken by their views.
pub enum ActionView {
    Evaluate(ExprView),
    Print,
    Define(Seq<char>),
    DefineNil(Seq<char>),
    OpenScope,
    CloseScope,
    Done(Result<(), Seq<char>>),
}

/// The work left, the next piece last, and the error being carried out of
/// the open scopes, if any.
pub struct ExecutorView {
    pub tasks: Seq<TaskView>,
    pub failure: Option<Seq<char>>,
}

impl<'a> View for Task<'a> {
    type V = TaskView;

    open spec fn view(&self) -> TaskView {
        match self {
            Task::Run(s) => TaskView::Run(s@),
            Task::Finish(s) => TaskView::Finish(s@),
            Task::CloseScope => TaskView::CloseScope,
        }
    }
}

impl<'a> View for ExecAction<'a> {
    type V = ActionView;

    open spec fn view(&self) -> ActionView {
        match self {
            ExecAction::Evaluate(e) => ActionView::Evaluate(e@),
            ExecAction::Print => ActionView::Print,
            ExecAction::Define(n) => ActionView::Define(n@),
            ExecAction::DefineNil(n) => ActionView::DefineNil(n@),
            ExecAction::OpenScope => ActionView::OpenScope,
            ExecAction::CloseScope => ActionView::CloseScope,
            ExecAction::Done(r) => ActionView::Done(
                match r {
                    Ok(()) => Ok(()),
                    Err(e) => Err(e.message@),
                },
            ),
        }
    }
}

pub open spec fn task_views<'a>(s: Seq<Task<'a>>) -> Seq<TaskView> {
    s.map_values(|t: Task<'a>| t@)
}

/// How an evaluation ended: truthy or not, or the error's message.
pub open spec fn event_view(event: Option<Result<bool, RuntimeError>>) -> Option<
    Result<bool, Seq<char>>,
> {
    match event {
        Some(Ok(b)) => Some(Ok(b)),
        Some(Err(e)) => Some(Err(e.message@)),
        None => None,
    }
}

/// The statements of a sequence as tasks, the first of them last.
pub open spec fn runs(stmts: Seq<StmtView>) -> Seq<TaskView> {
    Seq::new(stmts.len(), |i: int| TaskView::Run(stmts[stmts.len() - 1 - i]))
}

/// Running a statement on top of the work `rest`: the work after it and
/// the action asked for.
pub open spec fn run_step(rest: Seq<TaskView>, s: StmtView) -> (Seq<TaskView>, ActionView) {
    match s {
        StmtView::Expression(e) => (rest.push(TaskView::Finish(s)), ActionView::Evaluate(e)),
        StmtView::Print(e) => (rest.push(TaskView::Finish(s)), ActionView::Evaluate(e)),
        StmtView::Var { identifier, expression } => match expression {
            Some(e) => (rest.push(TaskView::Finish(s)), ActionView::Evaluate(e)),
            None => (rest, ActionView::DefineNil(identifier)),
        },
        StmtView::Block(stmts) => (
            rest.push(TaskView::CloseScope) + runs(stmts),
            ActionView::OpenScope,
        ),
        StmtView::If { condition, .. } => (
            rest.push(TaskView::Finish(s)),
            ActionView::Evaluate(condition),
        ),
        StmtView::While { condition, .. } => (
            rest.push(TaskView::Finish(s)),
            ActionView::Evaluate(condition),
        ),
    }
}

/// Taking up the next piece of work when no value is waiting for it.
pub open spec fn next_step(tasks: Seq<TaskView>) -> (Seq<TaskView>, ActionView) {
    if tasks.len() == 0 {
        (tasks, ActionView::Done(Ok(())))
    } else {
        let rest = tasks.drop_last();
        match tasks.last() {
            TaskView::Run(s) => run_step(rest, s),
            TaskView::CloseScope => (rest, ActionView::CloseScope),
            // A statement waiting for a value is never taken up without
            // one (see `wf` and the requirement of `Executor::step`).
            TaskView::Finish(_) => (rest, ActionView::Done(Ok(()))),
        }
    }
}

/// Finishing statement `s` with a value that is truthy or not.
pub open spec fn finish_step(rest: Seq<TaskView>, s: StmtView, truthy: bool) -> (
    Seq<TaskView>,
    ActionView,
) {
    match s {
        StmtView::Print(_) => (rest, ActionView::Print),
        StmtView::Var { identifier, .. } => (rest, ActionView::Define(identifier)),
        StmtView::If { then_branch, else_branch, .. } => if truthy {
            run_step(rest, *then_branch)
        } else {
            match else_branch {
                Some(b) => run_step(rest, *b),
                None => next_step(rest),
            }
        },
        StmtView::While { body, .. } => if truthy {
            run_step(rest.push(TaskView::Run(s)), *body)
        } else {
            next_step(rest)
        },
        _ => next_step(rest),
    }
}

/// The work left once every piece up to the innermost scope's closing has
/// been dropped.
pub open spec fn unwind(tasks: Seq<TaskView>) -> Seq<TaskView>
    decreases tasks.len(),
{
    if tasks.len() == 0 || tasks.last() is CloseScope {
        tasks
    } else {
        unwind(tasks.drop_last())
    }
}

/// Carrying error `e` out: close the innermost open scope, or end the run
/// with the error where none is left.
pub open spec fn fail_step(tasks: Seq<TaskView>, e: Seq<char>) -> (ExecutorView, ActionView) {
    let rest = unwind(tasks);
    if rest.len() == 0 {
        (ExecutorView { tasks: rest, failure: None }, ActionView::Done(Err(e)))
    } else {
        (ExecutorView { tasks: rest.drop_last(), failure: Some(e) }, ActionView::CloseScope)
    }
}

/// One step of the executor: the state after it and the action asked for,
/// given how the last evaluation ended, if one was asked for.
pub open spec fn exec_step(v: ExecutorView, event: Option<Result<bool, Seq<char>>>) -> (
    ExecutorView,
    ActionView,
) {
    match v.failure {
        Some(e) => fail_step(v.tasks, e),
        None => match event {
            Some(Err(e)) => fail_step(v.tasks, e),
            Some(Ok(truthy)) => match v.tasks.last() {
                TaskView::Finish(s) => {
                    let (t, a) = finish_step(v.tasks.drop_last(), s, truthy);
                    (ExecutorView { tasks: t, failure: None }, a)
                },
                _ => {
                    let (t, a) = next_step(v.tasks);
                    (ExecutorView { tasks: t, failure: None }, a)
                },
            },
            None => {
                let (t, a) = next_step(v.tasks);
                (ExecutorView { tasks: t, failure: None }, a)
            },
        },
    }
}

/// A statement waits for a value only on top of the work.
pub open spec fn wf(v: ExecutorView) -> bool {
    &&& forall|i: int| 0 <= i < v.tasks.len() - 1 ==> !(#[trigger] v.tasks[i] is Finish)
    &&& v.failure is Some ==> (v.tasks.len() == 0 || !(v.tasks.last() is Finish))
}

/// The executor waits to hear how an evaluation ended.
pub open spec fn awaiting(v: ExecutorView) -> bool {
    v.failure is None && v.tasks.len() > 0 && v.tasks.last() is Finish
}

proof fn lemma_unwind(tasks: Seq<TaskView>)
    ensures
        unwind(tasks).len() <= tasks.len(),
        unwind(tasks) =~= tasks.subrange(0, unwind(tasks).len() as int),
        unwind(tasks).len() == 0 || unwind(tasks).last() is CloseScope,
    decreases tasks.len(),
{
    if tasks.len() > 0 && !(tasks.last() is CloseScope) {
        lemma_unwind(tasks.drop_last());
    }
}

proof fn lemma_run_step(rest: Seq<TaskView>, s: StmtView)
    requires
        forall|i: int| 0 <= i < rest.len() ==> !(#[trigger] rest[i] is Finish),
    ensures
        wf(ExecutorView { tasks: run_step(rest, s).0, failure: None }),
        awaiting(ExecutorView { tasks: run_step(rest, s).0, failure: None }) == (run_step(
            rest,
            s,
        ).1 is Evaluate),
{
    let t = run_step(rest, s).0;
    if let StmtView::Block(stmts) = s {
        assert forall|i: int| 0 <= i < t.len() implies !(#[trigger] t[i] is Finish) by {
            if i >= rest.len() + 1 {
                assert(t[i] == runs(stmts)[i - rest.len() - 1]);
            }
        }
    }
}

proof fn lemma_next_step(tasks: Seq<TaskView>)
    requires
        forall|i: int| 0 <= i < tasks.len() ==> !(#[trigger] tasks[i] is Finish),
    ensures
        wf(ExecutorView { tasks: next_step(tasks).0, failure: None }),
        awaiting(ExecutorView { tasks: next_step(tasks).0, failure: None }) == (next_step(
            tasks,
        ).1 is Evaluate),
{
    if tasks.len() > 0 {
        let rest = tasks.drop_last();
        assert forall|i: int| 0 <= i < rest.len() implies !(#[trigger] rest[i] is Finish) by {
            assert(rest[i] == tasks[i]);
        }
        if let TaskView::Run(s) = tasks.last() {
            lemma_run_step(rest, s);
        }
    }
}

proof fn lemma_step_wf(v: ExecutorView, event: Option<Result<bool, Seq<char>>>)
    requires
        wf(v),
        (event is Some) == awaiting(v),
    ensures
        wf(exec_step(v, event).0),
        awaiting(exec_step(v, event).0) == (exec_step(v, event).1 is Evaluate),
{
    let t = v.tasks;
    if v.failure is Some || event matches Some(Err(_)) {
        lemma_unwind(t);
        let u = unwind(t);
        assert forall|i: int| 0 <= i < u.len() implies !(#[trigger] u[i] is Finish) by {
            assert(u[i] == t[i]);
            if i == t.len() - 1 {
                assert(u.len() == t.len());
            }
        }
    } else {
        let rest = t.drop_last();
        if event is Some {
            assert forall|i: int| 0 <= i < rest.len() implies !(#[trigger] rest[i] is Finish) by {
                assert(rest[i] == t[i]);
            }
            if let TaskView::Finish(s) = t.last() {
                match s {
                    StmtView::If { then_branch, else_branch, .. } => {
                        lemma_run_step(rest, *then_branch);
                        if let Some(b) = else_branch {
                            lemma_run_step(rest, *b);
                        }
                        lemma_next_step(rest);
                    },
                    StmtView::While { body, .. } => {
                        let r2 = rest.push(TaskView::Run(s));
                        assert forall|i: int| 0 <= i < r2.len() implies !(#[trigger] r2[i] is Finish) by {
                            if i < rest.len() {
                                assert(r2[i] == rest[i]);
                            }
                        }
                        lemma_run_step(r2, *body);
                        lemma_next_step(rest);
                    },
                    _ => {
                        lemma_next_step(rest);
                    },
                }
            }
        } else {
            assert forall|i: int| 0 <= i < t.len() implies !(#[trigger] t[i] is Finish) by {
                if i == t.len() - 1 {
                    assert(!awaiting(v));
                }
            }
            lemma_next_step(t);
        }
    }
}

/// The number of scopes the work left will close.
pub open spec fn open_scopes(tasks: Seq<TaskView>) -> nat
    decreases tasks.len(),
{
    if tasks.len() == 0 {
        0
    } else {
        open_scopes(tasks.drop_last()) + if tasks.last() is CloseScope {
            1nat
        } else {
            0nat
        }
    }
}

proof fn lemma_open_scopes_push(t: Seq<TaskView>, x: TaskView)
    ensures
        open_scopes(t.push(x)) == open_scopes(t) + if x is CloseScope {
            1nat
        } else {
            0nat
        },
{
    assert(t.push(x).drop_last() =~= t);
}

proof fn lemma_open_scopes_none(t: Seq<TaskView>)
    requires
        forall|i: int| 0 <= i < t.len() ==> !(#[trigger] t[i] is CloseScope),
    ensures
        open_scopes(t) == 0,
    decreases t.len(),
{
    if t.len() > 0 {
        let r = t.drop_last();
        assert forall|i: int| 0 <= i < r.len() implies !(#[trigger] r[i] is CloseScope) by {
            assert(r[i] == t[i]);
        }
        lemma_open_scopes_none(r);
    }
}

proof fn lemma_open_scopes_concat(a: Seq<TaskView>, b: Seq<TaskView>)
    ensures
        open_scopes(a + b) == open_scopes(a) + open_scopes(b),
    decreases b.len(),
{
    if b.len() > 0 {
        assert((a + b).drop_last() =~= a + b.drop_last());
        lemma_open_scopes_concat(a, b.drop_last());
    }
}

proof fn lemma_unwind_scopes(t: Seq<TaskView>)
    ensures
        unwind(t).len() == 0 ==> open_scopes(t) == 0,
        unwind(t).len() > 0 ==> open_scopes(unwind(t)) == open_scopes(t),
    decreases t.len(),
{
    if t.len() > 0 && !(t.last() is CloseScope) {
        lemma_unwind_scopes(t.drop_last());
    }
}

proof fn lemma_run_step_scopes(rest: Seq<TaskView>, s: StmtView)
    ensures
        ({
            let (t, a) = run_step(rest, s);
            &&& !(a is CloseScope) && !(a is Done)
            &&& open_scopes(t) == open_scopes(rest) + if a is OpenScope {
                1nat
            } else {
                0nat
            }
        }),
{
    lemma_open_scopes_push(rest, TaskView::Finish(s));
    if let StmtView::Block(stmts) = s {
        let base = rest.push(TaskView::CloseScope);
        lemma_open_scopes_push(rest, TaskView::CloseScope);
        lemma_open_scopes_concat(base, runs(stmts));
        lemma_open_scopes_none(runs(stmts));
    }
}

proof fn lemma_next_step_scopes(tasks: Seq<TaskView>)
    requires
        tasks.len() == 0 || !(tasks.last() is Finish),
    ensures
        ({
            let (t, a) = next_step(tasks);
            &&& a is OpenScope ==> open_scopes(t) == open_scopes(tasks) + 1
            &&& a is CloseScope ==> open_scopes(t) + 1 == open_scopes(tasks)
            &&& a is Done ==> tasks.len() == 0 && t.len() == 0
            &&& !(a is OpenScope) && !(a is CloseScope) && !(a is Done) ==> open_scopes(t)
                == open_scopes(tasks)
        }),
{
    if tasks.len() > 0 {
        let rest = tasks.drop_last();
        if let TaskView::Run(s) = tasks.last() {
            lemma_run_step_scopes(rest, s);
        }
    }
}

/// Scopes are opened and closed in pairs: a step that asks to open a scope
/// leaves one more scope to close, one that asks to close a scope leaves
/// one fewer, any other leaves as many; and the run ends, whether with an
/// error or not, only once every scope it opened has been closed.
pub proof fn law_scopes_balance(v: ExecutorView, event: Option<Result<bool, Seq<char>>>)
    requires
        wf(v),
        (event is Some) == awaiting(v),
    ensures
        ({
            let (w, a) = exec_step(v, event);
            &&& a is OpenScope ==> open_scopes(w.tasks) == open_scopes(v.tasks) + 1
            &&& a is CloseScope ==> open_scopes(w.tasks) + 1 == open_scopes(v.tasks)
            &&& a is Done ==> open_scopes(v.tasks) == 0 && w.tasks.len() == 0
            &&& !(a is OpenScope) && !(a is CloseScope) && !(a is Done) ==> open_scopes(w.tasks)
                == open_scopes(v.tasks)
        }),
{
    let t = v.tasks;
    if v.failure is Some || event matches Some(Err(_)) {
        lemma_unwind(t);
        lemma_unwind_scopes(t);
        let u = unwind(t);
        if u.len() > 0 {
            assert(u =~= u.drop_last().push(u.last()));
            lemma_open_scopes_push(u.drop_last(), u.last());
        }
    } else if event is Some {
        let rest = t.drop_last();
        assert(t =~= rest.push(t.last()));
        lemma_open_scopes_push(rest, t.last());
        assert(rest.len() == 0 || !(rest.last() is Finish)) by {
            if rest.len() > 0 {
                assert(rest.last() == t[t.len() - 2]);
            }
        }
        if let TaskView::Finish(s) = t.last() {
            match s {
                StmtView::If { then_branch, else_branch, .. } => {
                    lemma_run_step_scopes(rest, *then_branch);
                    if let Some(b) = else_branch {
                        lemma_run_step_scopes(rest, *b);
                    }
                    lemma_next_step_scopes(rest);
                },
                StmtView::While { body, .. } => {
                    lemma_open_scopes_push(rest, TaskView::Run(s));
                    lemma_run_step_scopes(rest.push(TaskView::Run(s)), *body);
                    lemma_next_step_scopes(rest);
                },
                _ => {
                    lemma_next_step_scopes(rest);
                },
            }
        }
    } else {
        lemma_next_step_scopes(t);
    }
}

/// How a statement waiting for its value goes on once told whether the value
/// was truthy: an `if` runs its then-branch on a truthy condition, whether or
/// not it has an else-branch, and otherwise its else-branch or nothing; a
/// `while` runs its body and then tests again on a truthy condition, and
/// otherwise is over; a `print` prints and a `var` defines the value.
pub proof fn law_finish_on_value(v: ExecutorView, s: StmtView, truthy: bool)
    requires
        v.failure is None,
        v.tasks.len() > 0,
        v.tasks.last() == TaskView::Finish(s),
    ensures
        ({
            let rest = v.tasks.drop_last();
            let (w, a) = exec_step(v, Some(Ok(truthy)));
            &&& w.failure is None
            &&& match s {
                StmtView::If { condition: _, then_branch, else_branch } => if truthy {
                    (w.tasks, a) == run_step(rest, *then_branch)
                } else {
                    match else_branch {
                        Some(b) => (w.tasks, a) == run_step(rest, *b),
                        None => (w.tasks, a) == next_step(rest),
                    }
                },
                StmtView::While { body, .. } => if truthy {
                    (w.tasks, a) == run_step(rest.push(TaskView::Run(s)), *body)
                } else {
                    (w.tasks, a) == next_step(rest)
                },
                StmtView::Print(_) => w.tasks == rest && a == ActionView::Print,
                StmtView::Var { identifier, .. } => w.tasks == rest && a == ActionView::Define(
                    identifier,
                ),
                _ => (w.tasks, a) == next_step(rest),
            }
        }),
{
}

/// Running a statement asks first for what it needs: an expression
/// statement, a `print` and a `var` with an initializer evaluate their
/// expression, an `if` and a `while` their condition, each then waiting for
/// the value; a `var` without one defines its name as nil; a block opens a
/// scope and then runs its statements in order before closing it.
pub proof fn law_run_statement(rest: Seq<TaskView>, s: StmtView)
    ensures
        ({
            let (t, a) = run_step(rest, s);
            match s {
                StmtView::Expression(e) => a == ActionView::Evaluate(e) && t == rest.push(
                    TaskView::Finish(s),
                ),
                StmtView::Print(e) => a == ActionView::Evaluate(e) && t == rest.push(
                    TaskView::Finish(s),
                ),
                StmtView::Var { identifier, expression } => match expression {
                    Some(e) => a == ActionView::Evaluate(e) && t == rest.push(TaskView::Finish(s)),
                    None => a == ActionView::DefineNil(identifier) && t == rest,
                },
                StmtView::Block(stmts) => {
                    &&& a == ActionView::OpenScope
                    &&& t.len() == rest.len() + 1 + stmts.len()
                    &&& t.subrange(0, rest.len() as int) == rest
                    &&& t[rest.len() as int] == TaskView::CloseScope
                    &&& forall|i: int|
                        0 <= i < stmts.len() ==> t[t.len() - 1 - i] == TaskView::Run(
                            #[trigger] stmts[i],
                        )
                },
                StmtView::If { condition, .. } => a == ActionView::Evaluate(condition) && t
                    == rest.push(TaskView::Finish(s)),
                StmtView::While { condition, .. } => a == ActionView::Evaluate(condition) && t
                    == rest.push(TaskView::Finish(s)),
            }
        }),
{
    if let StmtView::Block(stmts) = s {
        let t = run_step(rest, s).0;
        assert(t.subrange(0, rest.len() as int) =~= rest);
        assert forall|i: int| 0 <= i < stmts.len() implies t[t.len() - 1 - i] == TaskView::Run(
            #[trigger] stmts[i],
        ) by {
            assert(t[t.len() - 1 - i] == runs(stmts)[stmts.len() - 1 - i]);
        }
    }
}

/// Runs a program's statements in order, one decision at a time.
pub struct Executor<'a> {
    tasks: Vec<Task<'a>>,
    failure: Option<RuntimeError>,
}

impl<'a> View for Executor<'a> {
    type V = ExecutorView;

    closed spec fn view(&self) -> ExecutorView {
        ExecutorView {
            tasks: task_views(self.tasks@),
            failure: match self.failure {
                Some(e) => Some(e.message@),
                None => None,
            },
        }
    }
}


impl<'a> Executor<'a> {
    /// An executor that runs the statements of `program` in order, in the
    /// scope that is open.
    pub fn new(program: &'a Vec<Stmt>) -> (r: Self)
        ensures
            r@ == (ExecutorView {
                tasks: runs(program@.map_values(|s: Stmt| s@)),
                failure: None,
            }),
            wf(r@),
    {
        let mut tasks: Vec<Task<'a>> = Vec::new();
        let n = program.len();
        let ghost views = program@.map_values(|s: Stmt| s@);
        let mut i = n;
        while i > 0
            invariant
                n == program@.len() == views.len(),
                i <= n,
                views == program@.map_values(|s: Stmt| s@),
                task_views(tasks@) =~= runs(views).subrange(0, (n - i) as int),
            decreases i,
        {
            i -= 1;
            let ghost before = task_views(tasks@);
            tasks.push(Task::Run(&program[i]));
            assert(task_views(tasks@) =~= before.push(TaskView::Run(views[i as int])));
            assert(runs(views).subrange(0, (n - i) as int) =~= runs(views).subrange(
                0,
                (n - i - 1) as int,
            ).push(TaskView::Run(views[i as int])));
        }
        assert(runs(views).subrange(0, n as int) =~= runs(views));
        Executor { tasks, failure: None }
    }

    /// Runs statement `s` on top of the work there is: pushes what is left
    /// of it and says what to do first.
    fn run(&mut self, s: &'a Stmt) -> (a: ExecAction<'a>)
        ensures
            (task_views(final(self).tasks@), a@) == run_step(task_views(old(self).tasks@), s@),
            final(self).failure == old(self).failure,
    {
        let ghost rest = task_views(self.tasks@);
        match s {
            Stmt::Expression(e) => {
                self.tasks.push(Task::Finish(s));
                assert(task_views(self.tasks@) =~= rest.push(TaskView::Finish(s@)));
                ExecAction::Evaluate(e)
            },
            Stmt::Print(e) => {
                self.tasks.push(Task::Finish(s));
                assert(task_views(self.tasks@) =~= rest.push(TaskView::Finish(s@)));
                ExecAction::Evaluate(e)
            },
            Stmt::Var { identifier, expression } => match expression {
                Some(e) => {
                    self.tasks.push(Task::Finish(s));
                    assert(task_views(self.tasks@) =~= rest.push(TaskView::Finish(s@)));
                    ExecAction::Evaluate(e)
                },
                None => ExecAction::DefineNil(identifier),
            },
            Stmt::Block(stmts) => {
                self.tasks.push(Task::CloseScope);
                let ghost base = rest.push(TaskView::CloseScope);
                let ghost views = s@->Block_0;
                assert(task_views(self.tasks@) =~= base);
                let n = stmts.len();
                let mut i = n;
                while i > 0
                    invariant
                        n == stmts@.len() == views.len(),
                        i <= n,
                        forall|j: int| 0 <= j < n ==> #[trigger] views[j] == stmts@[j]@,
                        task_views(self.tasks@) =~= base + runs(views).subrange(
                            0,
                            (n - i) as int,
                        ),
                        self.failure == old(self).failure,
                    decreases i,
                {
                    i -= 1;
                    let ghost before = task_views(self.tasks@);
                    self.tasks.push(Task::Run(&stmts[i]));
                    assert(task_views(self.tasks@) =~= before.push(TaskView::Run(views[i as int])));
                    assert(runs(views).subrange(0, (n - i) as int) =~= runs(views).subrange(
                        0,
                        (n - i - 1) as int,
                    ).push(TaskView::Run(views[i as int])));
                    assert(task_views(self.tasks@) =~= base + runs(views).subrange(
                        0,
                        (n - i) as int,
                    ));
                }
                assert(runs(views).subrange(0, n as int) =~= runs(views));
                ExecAction::OpenScope
            },
            Stmt::If { condition, .. } => {
                self.tasks.push(Task::Finish(s));
                assert(task_views(self.tasks@) =~= rest.push(TaskView::Finish(s@)));
                ExecAction::Evaluate(condition)
            },
            Stmt::While { condition, .. } => {
                self.tasks.push(Task::Finish(s));
                assert(task_views(self.tasks@) =~= rest.push(TaskView::Finish(s@)));
                ExecAction::Evaluate(condition)
            },
        }
    }

    /// Takes up the next piece of work; no value is waiting for it.
    fn next(&mut self) -> (a: ExecAction<'a>)
        ensures
            (task_views(final(self).tasks@), a@) == next_step(task_views(old(self).tasks@)),
            final(self).failure == old(self).failure,
    {
        let ghost tasks = task_views(self.tasks@);
        match self.tasks.pop() {
            None => ExecAction::Done(Ok(())),
            Some(t) => {
                assert(task_views(self.tasks@) =~= tasks.drop_last());
                match t {
                    Task::Run(s) => self.run(s),
                    Task::CloseScope => ExecAction::CloseScope,
                    Task::Finish(_) => ExecAction::Done(Ok(())),
                }
            },
        }
    }

    /// Finishes statement `s` with a value that was truthy or not.
    fn finish(&mut self, s: &'a Stmt, truthy: bool) -> (a: ExecAction<'a>)
        ensures
            (task_views(final(self).tasks@), a@) == finish_step(
                task_views(old(self).tasks@),
                s@,
                truthy,
            ),
            final(self).failure == old(self).failure,
    {
        match s {
            Stmt::Print(_) => ExecAction::Print,
            Stmt::Var { identifier, .. } => ExecAction::Define(identifier),
            Stmt::If { then_branch, else_branch, .. } => {
                if truthy {
                    self.run(&**then_branch)
                } else {
                    match else_branch {
                        Some(b) => self.run(&**b),
                        None => self.next(),
                    }
                }
            },
            Stmt::While { body, .. } => {
                if truthy {
                    let ghost rest = task_views(self.tasks@);
                    self.tasks.push(Task::Run(s));
                    assert(task_views(self.tasks@) =~= rest.push(TaskView::Run(s@)));
                    self.run(&**body)
                } else {
                    self.next()
                }
            },
            _ => self.next(),
        }
    }

    /// Carries error `e` out of the innermost open scope.
    fn fail(&mut self, e: RuntimeError) -> (a: ExecAction<'a>)
        ensures
            (final(self)@, a@) == fail_step(task_views(old(self).tasks@), e.message@),
    {
        let ghost target = unwind(task_views(self.tasks@));
        loop
            invariant
                unwind(task_views(self.tasks@)) == target,
                target == unwind(task_views(old(self).tasks@)),
            decreases self.tasks@.len(),
        {
            let ghost tasks = task_views(self.tasks@);
            match self.tasks.pop() {
                None => {
                    self.failure = None;
                    return ExecAction::Done(Err(e));
                },
                Some(t) => {
                    assert(task_views(self.tasks@) =~= tasks.drop_last());
                    assert(t@ == tasks.last());
                    if let Task::CloseScope = t {
                        self.failure = Some(e);
                        return ExecAction::CloseScope;
                    }
                },
            }
        }
    }

    /// One step: given how the evaluation last asked for ended (`None`
    /// where none was asked for), says what to do next.
    pub fn step(&mut self, event: Option<Result<bool, RuntimeError>>) -> (a: ExecAction<'a>)
        requires
            wf(old(self)@),
            (event is Some) == awaiting(old(self)@),
        ensures
            (final(self)@, a@) == exec_step(old(self)@, event_view(event)),
            wf(final(self)@),
            awaiting(final(self)@) == (a is Evaluate),
    {
        proof {
            lemma_step_wf(self@, event_view(event));
        }
        let failure = self.failure.take();
        if let Some(e) = failure {
            return self.fail(e);
        }
        match event {
            Some(Err(e)) => self.fail(e),
            Some(Ok(truthy)) => {
                let ghost tasks = task_views(self.tasks@);
                match self.tasks.pop() {
                    Some(Task::Finish(s)) => {
                        assert(task_views(self.tasks@) =~= tasks.drop_last());
                        self.finish(s, truthy)
                    },
                    _ => ExecAction::Done(Ok(())),
                }
            },
            None => self.next(),
        }
    }
}

} // verus!
