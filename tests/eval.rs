use stackvm::eval::{Expr, Thread, Value};

#[test]
fn test_simple() {
    let exprs = vec![
        Expr::Literal { integer: 2 },
        Expr::Literal { integer: 2 },
        Expr::Add,
        Expr::Return,
        Expr::Enclose { start: 0 },
        Expr::Store { name: "c".into() },
        Expr::Load { name: "c".into() },
        Expr::Call,
        Expr::Load { name: "c".into() },
        Expr::Call,
        Expr::Add,
        Expr::Return,
    ];
    let mut thread = Thread::new(&exprs, 4);
    while !thread.done() {
        thread.step().unwrap();
    }
}

#[test]
fn eval_simple_leaves_sum_of_two_calls() {
    let exprs = vec![
        Expr::Literal { integer: 2 },
        Expr::Literal { integer: 2 },
        Expr::Add,
        Expr::Return,
        Expr::Enclose { start: 0 },
        Expr::Store { name: "c".into() },
        Expr::Load { name: "c".into() },
        Expr::Call,
        Expr::Load { name: "c".into() },
        Expr::Call,
        Expr::Add,
        Expr::Return,
    ];
    let mut thread = Thread::new(&exprs, 4);
    while !thread.done() {
        thread.step().unwrap();
    }
    assert_eq!(thread.stack, vec![Value::Integer(8)]);
}

#[test]
fn eval_unbound_name_fails_without_change() {
    let exprs = vec![Expr::Load { name: "x".into() }];
    let mut thread = Thread::new(&exprs, 0);
    assert_eq!(thread.step(), Err(stackvm::error::Error::UnboundName));
    assert_eq!(thread.frames[0].addr, 0);
    assert!(thread.stack.is_empty());
}

#[test]
fn eval_store_rebinds_name() {
    let exprs = vec![
        Expr::Literal { integer: 1 },
        Expr::Store { name: "x".into() },
        Expr::Literal { integer: 5 },
        Expr::Store { name: "x".into() },
        Expr::Load { name: "x".into() },
    ];
    let mut thread = Thread::new(&exprs, 0);
    for _ in 0..5 {
        thread.step().unwrap();
    }
    assert_eq!(thread.stack, vec![Value::Integer(5)]);
    assert_eq!(thread.frames[0].names.len(), 1);
}

#[test]
fn eval_call_of_integer_is_type_mismatch() {
    let exprs = vec![Expr::Literal { integer: 1 }, Expr::Call];
    let mut thread = Thread::new(&exprs, 0);
    thread.step().unwrap();
    assert_eq!(thread.step(), Err(stackvm::error::Error::TypeMismatch));
    assert_eq!(Value::Integer(3).closure(), Err(stackvm::error::Error::TypeMismatch));
    assert_eq!(Value::Closure { start: 3 }.closure(), Ok(3));
    assert_eq!(Value::Nil.integer(), Err(stackvm::error::Error::TypeMismatch));
}

#[test]
fn eval_address_past_end_is_invalid() {
    let exprs = vec![Expr::Literal { integer: 1 }];
    let mut thread = Thread::new(&exprs, 1);
    assert_eq!(thread.step(), Err(stackvm::error::Error::InvalidAddress));
}

#[test]
fn eval_add_overflow_is_reported() {
    let exprs = vec![
        Expr::Literal { integer: i64::MAX },
        Expr::Literal { integer: 1 },
        Expr::Add,
    ];
    let mut thread = Thread::new(&exprs, 0);
    thread.step().unwrap();
    thread.step().unwrap();
    assert_eq!(thread.step(), Err(stackvm::error::Error::Overflow));
    assert_eq!(thread.stack.len(), 2);
}
