use stackvm::error::Error;
use stackvm::function::Function;
use stackvm::thread::{Frame, Thread};
use stackvm::value::Value;

#[test]
fn thread_stack_operations() {
    let mut t = Thread::new(5);
    assert_eq!(t.pop(), Err(Error::StackUnderflow));
    assert_eq!(t.peek(), Err(Error::StackUnderflow));
    for n in 1..=4 {
        t.push(Value::Integer(n));
    }
    assert_eq!(t.peek(), Ok(Value::Integer(4)));
    assert_eq!(t.pop_n(5), Err(Error::StackUnderflow));
    assert_eq!(t.pop_n(2), Ok(vec![Value::Integer(3), Value::Integer(4)]));
    assert_eq!(t.pop(), Ok(Value::Integer(2)));
    assert_eq!(t.get(0), Ok(Value::Integer(1)));
    assert_eq!(t.get(1), Err(Error::InvalidLocal));
    assert_eq!(t.pop_n(0), Ok(vec![]));
}

#[test]
fn thread_advance_until_done() {
    let mut t = Thread::new(5);
    assert_eq!(t.advance(), Some(5));
    assert_eq!(t.advance(), Some(6));
    t.push(Value::Nil);
    assert_eq!(t.ret(), Ok(()));
    assert!(t.done());
    assert_eq!(t.advance(), None);
    assert_eq!(t.ret(), Err(Error::StackUnderflow));
}

#[test]
fn thread_call_layout() {
    let mut t = Thread::new(0);
    t.push(Value::Integer(10));
    t.push(Value::Object(0));
    let f = Function {
        entry: 7,
        num_params: 1,
        closure: vec![Value::Integer(20), Value::Integer(30)],
    };
    assert_eq!(t.call(f), Ok(()));
    assert_eq!(t.frames[1], Frame { addr: 7, stack_offset: 0 });
    assert_eq!(t.get(0), Ok(Value::Integer(10)));
    assert_eq!(t.get(1), Ok(Value::Object(0)));
    assert_eq!(t.get(2), Ok(Value::Integer(20)));
    assert_eq!(t.get(3), Ok(Value::Integer(30)));
    t.push(Value::Integer(99));
    assert_eq!(t.ret(), Ok(()));
    assert_eq!(t.stack, vec![Value::Integer(99)]);
}

#[test]
fn thread_call_with_too_few_values() {
    let mut t = Thread::new(0);
    t.push(Value::Object(0));
    let f = Function {
        entry: 7,
        num_params: 1,
        closure: vec![],
    };
    assert_eq!(t.call(f), Err(Error::StackUnderflow));
    assert_eq!(t.frames.len(), 1);
    assert_eq!(t.stack.len(), 1);
}

#[test]
fn value_integer_projection() {
    assert_eq!(Value::Integer(-3).integer(), Ok(-3));
    assert_eq!(Value::Object(1).integer(), Err(Error::TypeMismatch));
}
