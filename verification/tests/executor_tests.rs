use lib::ast::Stmt;
use lib::environment::RuntimeError;
use lib::executor::{ExecAction, Executor};
use lib::lexer::Lexer;
use lib::parser::Parser;

fn program(src: &str) -> Vec<Stmt> {
    let mut lexer = Lexer::new(src.to_string());
    let tokens = lexer.analyze();
    assert!(!lexer.encountered_error);
    let mut parser = Parser::new(tokens);
    parser.parse_stmts().ok().expect("parses")
}

/// A short name for an action, with the expression to evaluate or the name
/// to define.
fn describe(action: &ExecAction) -> String {
    match action {
        ExecAction::Evaluate(e) => format!("eval {}", e.to_string()),
        ExecAction::Print => "print".to_string(),
        ExecAction::Define(n) => format!("define {}", n),
        ExecAction::DefineNil(n) => format!("define-nil {}", n),
        ExecAction::OpenScope => "open".to_string(),
        ExecAction::CloseScope => "close".to_string(),
        ExecAction::Done(Ok(())) => "done".to_string(),
        ExecAction::Done(Err(e)) => format!("failed {}", e.message),
    }
}

/// Runs the executor, answering the evaluations in order from `answers`,
/// and lists the actions it asked for.
fn trace(stmts: &Vec<Stmt>, answers: Vec<Result<bool, &str>>) -> Vec<String> {
    let mut executor = Executor::new(stmts);
    let mut answers = answers.into_iter();
    let mut event = None;
    let mut out = Vec::new();
    loop {
        let action = executor.step(event.take());
        out.push(describe(&action));
        match action {
            ExecAction::Evaluate(_) => {
                let answer = answers.next().expect("an answer for each evaluation");
                event = Some(answer.map_err(|m| RuntimeError { message: m.to_string() }));
            }
            ExecAction::Done(_) => return out,
            _ => {}
        }
    }
}

#[test]
fn empty_program_is_done_at_once() {
    let stmts = program("");
    assert_eq!(trace(&stmts, vec![]), vec!["done"]);
}

#[test]
fn statements_run_in_order() {
    let stmts = program("var a = 1; var b; print a; a;");
    assert_eq!(
        trace(&stmts, vec![Ok(true), Ok(true), Ok(true)]),
        vec!["eval 1", "define a", "define-nil b", "eval a", "print", "eval a", "done"]
    );
}

#[test]
fn block_opens_and_closes_a_scope() {
    let stmts = program("{ var c = 2; print c; } print 3;");
    assert_eq!(
        trace(&stmts, vec![Ok(true), Ok(true), Ok(true)]),
        vec!["open", "eval 2", "define c", "eval c", "print", "close", "eval 3", "print", "done"]
    );
}

#[test]
fn if_takes_the_branch_its_condition_picks() {
    let stmts = program("if (x) print 1; else print 2;");
    assert_eq!(
        trace(&stmts, vec![Ok(true), Ok(true)]),
        vec!["eval x", "eval 1", "print", "done"]
    );
    assert_eq!(
        trace(&stmts, vec![Ok(false), Ok(true)]),
        vec!["eval x", "eval 2", "print", "done"]
    );
    let stmts = program("if (x) print 1;");
    assert_eq!(trace(&stmts, vec![Ok(false)]), vec!["eval x", "done"]);
}

#[test]
fn while_tests_its_condition_before_each_pass() {
    let stmts = program("while (x) print 1;");
    assert_eq!(
        trace(&stmts, vec![Ok(true), Ok(true), Ok(true), Ok(true), Ok(false)]),
        vec![
            "eval x",
            "eval 1",
            "print",
            "eval x",
            "eval 1",
            "print",
            "eval x",
            "done"
        ]
    );
}

#[test]
fn error_closes_the_open_scopes_and_ends_the_run() {
    let stmts = program("{ { print x; } print 1; } print 2;");
    assert_eq!(
        trace(&stmts, vec![Err("Undefined variable 'x'.")]),
        vec!["open", "open", "eval x", "close", "close", "failed Undefined variable 'x'."]
    );
}

#[test]
fn error_outside_any_block_ends_the_run_at_once() {
    let stmts = program("print 1; print y; print 2;");
    assert_eq!(
        trace(&stmts, vec![Ok(true), Err("boom")]),
        vec!["eval 1", "print", "eval y", "failed boom"]
    );
}
