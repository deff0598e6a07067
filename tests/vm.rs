use stackvm::error::Error;
use stackvm::object::Object;
use stackvm::thread::Thread;
use stackvm::value::Value;
use stackvm::vm::{Expr, VM};

const BUDGET: usize = 1_000_000;

fn fib_program() -> Vec<Expr> {
    vec![
        // stack is: 0:n, 1:func
        Expr::Load { i: 0 },
        Expr::BranchIfNotZero { target: 4 },
        Expr::Literal { integer: 0 },
        Expr::Return,
        Expr::Load { i: 0 },
        Expr::Literal { integer: 1 },
        Expr::Sub,
        Expr::BranchIfNotZero { target: 10 },
        Expr::Literal { integer: 1 },
        Expr::Return,
        Expr::Load { i: 0 },
        Expr::Literal { integer: 2 },
        Expr::Sub,
        Expr::Load { i: 1 },
        Expr::Call { num_args: 1 },
        Expr::Load { i: 0 },
        Expr::Literal { integer: 1 },
        Expr::Sub,
        Expr::Load { i: 1 },
        Expr::Call { num_args: 1 },
        Expr::Add,
        Expr::Return,
        // fib(8)
        Expr::Literal { integer: 8 },
        Expr::Function {
            entry: 0,
            closure_len: 0,
            num_params: 1,
        },
        Expr::Call { num_args: 1 },
        Expr::Return,
    ]
}

#[test]
fn test_fib() {
    let exprs = fib_program();
    let mut vm = VM::new();
    assert_eq!(vm.exec(&exprs, 22, BUDGET).unwrap().integer(), Ok(21));
}

#[test]
fn test_curry() {
    let exprs = vec![
        // stack is: 0:y, 1:func, 2:x
        Expr::Load { i: 0 },
        Expr::Load { i: 2 },
        Expr::Add,
        Expr::Return,
        // adder
        Expr::Load { i: 0 },
        Expr::Function {
            entry: 0,
            closure_len: 1,
            num_params: 1,
        },
        Expr::Return,
        Expr::Literal { integer: 1 },
        Expr::Literal { integer: 2 },
        Expr::Function {
            entry: 4,
            closure_len: 0,
            num_params: 1,
        },
        Expr::Call { num_args: 1 },
        Expr::Call { num_args: 1 },
        Expr::Return,
    ];
    let mut vm = VM::new();
    assert_eq!(vm.exec(&exprs, 7, BUDGET).unwrap().integer(), Ok(3));
}

#[test]
fn vm_curry_leaves_empty_pool() {
    let exprs = vec![
        Expr::Load { i: 0 },
        Expr::Load { i: 2 },
        Expr::Add,
        Expr::Return,
        Expr::Load { i: 0 },
        Expr::Function {
            entry: 0,
            closure_len: 1,
            num_params: 1,
        },
        Expr::Return,
        Expr::Literal { integer: 1 },
        Expr::Literal { integer: 2 },
        Expr::Function {
            entry: 4,
            closure_len: 0,
            num_params: 1,
        },
        Expr::Call { num_args: 1 },
        Expr::Call { num_args: 1 },
        Expr::Return,
    ];
    let mut vm = VM::new();
    let result = vm.exec(&exprs, 7, BUDGET).unwrap();
    assert_eq!(result, Value::Integer(3));
    assert_eq!(vm.pool.len(), 0);
}

#[test]
fn vm_fib_small_values() {
    let expected = [0i64, 1, 1, 2, 3, 5, 8, 13, 21, 34];
    for (n, want) in expected.iter().enumerate() {
        let mut exprs = fib_program();
        exprs[22] = Expr::Literal { integer: n as i64 };
        let mut vm = VM::new();
        assert_eq!(vm.exec(&exprs, 22, BUDGET), Ok(Value::Integer(*want)));
        assert_eq!(vm.pool.len(), 0);
    }
}

#[test]
fn vm_returned_closure_survives_compaction() {
    // Returns a function that captured 5; only it survives.
    let exprs = vec![
        Expr::Literal { integer: 5 },
        Expr::Function {
            entry: 0,
            closure_len: 1,
            num_params: 0,
        },
        Expr::Return,
    ];
    let mut vm = VM::new();
    let result = vm.exec(&exprs, 0, BUDGET).unwrap();
    assert_eq!(result, Value::Object(0));
    assert_eq!(vm.pool.len(), 1);
    assert_eq!(vm.pool.to_string(&result), "function entry:0 params:0 enclosing:1");
}

#[test]
fn vm_arity_mismatch_leaves_stack_alone() {
    let mut vm = VM::new();
    let thread = vm.pool.allocate(Object::Thread(Thread::new(0)));
    assert_eq!(vm.step(Expr::Literal { integer: 4 }, thread), Ok(None));
    let function = Expr::Function {
        entry: 0,
        closure_len: 0,
        num_params: 2,
    };
    assert_eq!(vm.step(function, thread), Ok(None));
    let stack_before = vm.pool.thread(thread).unwrap().stack.clone();
    let frames_before = vm.pool.thread(thread).unwrap().frames.clone();
    assert_eq!(
        vm.step(Expr::Call { num_args: 1 }, thread),
        Err(Error::ArityMismatch)
    );
    assert_eq!(vm.pool.thread(thread).unwrap().stack, stack_before);
    assert_eq!(vm.pool.thread(thread).unwrap().frames, frames_before);
}

#[test]
fn vm_exec_reports_arity_mismatch() {
    let exprs = vec![
        Expr::Return,
        Expr::Literal { integer: 1 },
        Expr::Function {
            entry: 0,
            closure_len: 0,
            num_params: 2,
        },
        Expr::Call { num_args: 1 },
    ];
    let mut vm = VM::new();
    assert_eq!(vm.exec(&exprs, 1, BUDGET), Err(Error::ArityMismatch));
}

#[test]
fn vm_return_truncates_to_frame_base_plus_one() {
    let mut vm = VM::new();
    let thread = vm.pool.allocate(Object::Thread(Thread::new(0)));
    // Below the call: 7; arguments 1 and 2; then a function of two
    // parameters that captured 9.
    for e in [
        Expr::Literal { integer: 7 },
        Expr::Literal { integer: 1 },
        Expr::Literal { integer: 2 },
        Expr::Literal { integer: 9 },
        Expr::Function {
            entry: 0,
            closure_len: 1,
            num_params: 2,
        },
    ] {
        assert_eq!(vm.step(e, thread), Ok(None));
    }
    assert_eq!(vm.step(Expr::Call { num_args: 2 }, thread), Ok(None));
    let t = vm.pool.thread(thread).unwrap();
    assert_eq!(t.frames.len(), 2);
    assert_eq!(t.frames[1].stack_offset, 1);
    assert_eq!(t.stack.len(), 5);
    // Locals: 0 and 1 the arguments, 2 the function itself, 3 the capture.
    assert_eq!(t.get(2), Ok(Value::Object(1)));
    assert_eq!(t.get(3), Ok(Value::Integer(9)));
    assert_eq!(vm.step(Expr::Load { i: 1 }, thread), Ok(None));
    assert_eq!(vm.step(Expr::Return, thread), Ok(None));
    let t = vm.pool.thread(thread).unwrap();
    assert_eq!(t.stack.len(), 1 + 1);
    assert_eq!(t.stack, vec![Value::Integer(7), Value::Integer(2)]);
    assert_eq!(vm.step(Expr::Return, thread), Ok(Some(Value::Integer(2))));
    assert!(vm.pool.thread(thread).unwrap().done());
}

#[test]
fn vm_self_reference_through_slot_num_params() {
    // A function of one parameter that loads slot 1 gets itself back.
    let exprs = vec![
        Expr::Load { i: 1 },
        Expr::Return,
        Expr::Literal { integer: 0 },
        Expr::Function {
            entry: 0,
            closure_len: 0,
            num_params: 1,
        },
        Expr::Call { num_args: 1 },
        Expr::Return,
    ];
    let mut vm = VM::new();
    let result = vm.exec(&exprs, 2, BUDGET).unwrap();
    assert_eq!(vm.pool.len(), 1);
    assert_eq!(vm.pool.to_string(&result), "function entry:0 params:1 enclosing:0");
}

#[test]
fn vm_add_of_non_integer_is_type_mismatch() {
    let exprs = vec![
        Expr::Function {
            entry: 0,
            closure_len: 0,
            num_params: 0,
        },
        Expr::Literal { integer: 1 },
        Expr::Add,
        Expr::Return,
    ];
    let mut vm = VM::new();
    assert_eq!(vm.exec(&exprs, 0, BUDGET), Err(Error::TypeMismatch));
}

#[test]
fn vm_sub_overflow_is_reported() {
    let exprs = vec![
        Expr::Literal { integer: i64::MIN },
        Expr::Literal { integer: 1 },
        Expr::Sub,
        Expr::Return,
    ];
    let mut vm = VM::new();
    assert_eq!(vm.exec(&exprs, 0, BUDGET), Err(Error::Overflow));
}

#[test]
fn vm_branch_and_pc_past_end() {
    let exprs = vec![Expr::Branch { target: 5 }];
    let mut vm = VM::new();
    assert_eq!(vm.exec(&exprs, 0, BUDGET), Err(Error::InvalidAddress));
}

#[test]
fn vm_endless_loop_runs_out_of_steps() {
    let exprs = vec![Expr::Branch { target: 0 }];
    let mut vm = VM::new();
    assert_eq!(vm.exec(&exprs, 0, 100), Err(Error::OutOfSteps));
}

#[test]
fn vm_load_outside_frame_and_underflow() {
    let mut vm = VM::new();
    let thread = vm.pool.allocate(Object::Thread(Thread::new(0)));
    assert_eq!(vm.step(Expr::Load { i: 0 }, thread), Err(Error::InvalidLocal));
    assert_eq!(vm.step(Expr::Add, thread), Err(Error::StackUnderflow));
    assert_eq!(vm.step(Expr::Return, thread), Err(Error::StackUnderflow));
    assert_eq!(
        vm.step(Expr::Call { num_args: 0 }, thread),
        Err(Error::StackUnderflow)
    );
    assert_eq!(
        vm.step(Expr::BranchIfNotZero { target: 0 }, thread),
        Err(Error::StackUnderflow)
    );
    assert_eq!(vm.step(Expr::Literal { integer: 3 }, thread), Ok(None));
    assert_eq!(vm.step(Expr::Call { num_args: 0 }, thread), Err(Error::TypeMismatch));
    assert_eq!(vm.step(Expr::Load { i: 0 }, thread), Ok(None));
    assert_eq!(vm.step(Expr::Sub, thread), Ok(None));
    assert_eq!(
        vm.pool.thread(thread).unwrap().stack,
        vec![Value::Integer(0)]
    );
}

#[test]
fn vm_branch_if_not_zero_jumps_only_on_non_zero() {
    let mut vm = VM::new();
    let thread = vm.pool.allocate(Object::Thread(Thread::new(3)));
    assert_eq!(vm.step(Expr::Literal { integer: 0 }, thread), Ok(None));
    assert_eq!(vm.step(Expr::BranchIfNotZero { target: 9 }, thread), Ok(None));
    assert_eq!(vm.pool.thread(thread).unwrap().frames[0].addr, 3);
    assert_eq!(vm.step(Expr::Literal { integer: -2 }, thread), Ok(None));
    assert_eq!(vm.step(Expr::BranchIfNotZero { target: 9 }, thread), Ok(None));
    assert_eq!(vm.pool.thread(thread).unwrap().frames[0].addr, 9);
    assert!(vm.pool.thread(thread).unwrap().stack.is_empty());
}
