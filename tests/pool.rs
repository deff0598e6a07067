use stackvm::error::Error;
use stackvm::function::Function;
use stackvm::object::Object;
use stackvm::pool::ObjectPool;
use stackvm::thread::Thread;
use stackvm::value::Value;

fn function(entry: usize, closure: Vec<Value>) -> Object {
    Object::Function(Function {
        entry,
        num_params: 1,
        closure,
    })
}

/// Objects 0 and 2 refer to each other, 3 refers to 1, 4 is alone.
fn sample_pool() -> ObjectPool {
    let mut pool = ObjectPool::new();
    assert_eq!(pool.allocate(function(10, vec![Value::Object(2)])), Value::Object(0));
    assert_eq!(pool.allocate(function(11, vec![])), Value::Object(1));
    assert_eq!(
        pool.allocate(function(12, vec![Value::Integer(4), Value::Object(0)])),
        Value::Object(2)
    );
    assert_eq!(pool.allocate(function(13, vec![Value::Object(1)])), Value::Object(3));
    assert_eq!(pool.allocate(function(14, vec![Value::Nil])), Value::Object(4));
    pool
}

fn entry_of(pool: &ObjectPool, v: Value) -> usize {
    pool.function(v).unwrap().entry
}

#[test]
fn pool_compaction_keeps_exactly_the_reachable_cycle() {
    let mut pool = sample_pool();
    let remap = pool.compact(&vec![Value::Object(2)]);
    assert_eq!(pool.len(), 2);
    assert_eq!(remap.apply(Value::Object(0)), Ok(Value::Object(0)));
    assert_eq!(remap.apply(Value::Object(2)), Ok(Value::Object(1)));
    assert_eq!(remap.apply(Value::Object(1)), Err(Error::InvalidHandle));
    assert_eq!(remap.apply(Value::Object(3)), Err(Error::InvalidHandle));
    assert_eq!(remap.apply(Value::Object(9)), Err(Error::InvalidHandle));
    assert_eq!(remap.apply(Value::Integer(7)), Ok(Value::Integer(7)));
    // Handles inside the survivors were renumbered.
    assert_eq!(pool.function(Value::Object(0)).unwrap().closure, vec![Value::Object(1)]);
    assert_eq!(
        pool.function(Value::Object(1)).unwrap().closure,
        vec![Value::Integer(4), Value::Object(0)]
    );
    assert_eq!(entry_of(&pool, Value::Object(0)), 10);
    assert_eq!(entry_of(&pool, Value::Object(1)), 12);
}

#[test]
fn pool_compaction_is_stable() {
    let mut pool = sample_pool();
    let remap = pool.compact(&vec![Value::Object(3), Value::Integer(1), Value::Object(0)]);
    assert_eq!(pool.len(), 4);
    let entries: Vec<usize> = (0..4).map(|i| entry_of(&pool, Value::Object(i))).collect();
    assert_eq!(entries, vec![10, 11, 12, 13]);
    assert_eq!(remap.apply(Value::Object(3)), Ok(Value::Object(3)));
    assert_eq!(remap.apply(Value::Object(4)), Err(Error::InvalidHandle));
}

#[test]
fn pool_compaction_without_handles_empties_pool() {
    let mut pool = sample_pool();
    let remap = pool.compact(&vec![Value::Nil, Value::Integer(3)]);
    assert_eq!(pool.len(), 0);
    assert_eq!(remap.apply(Value::Object(0)), Err(Error::InvalidHandle));
}

#[test]
fn pool_remapped_values_render_as_before() {
    let mut pool = sample_pool();
    let thread = pool.allocate(Object::Thread(Thread::new(0)));
    let kept = vec![Value::Object(3), thread, Value::Integer(-42), Value::Nil];
    let before: Vec<String> = kept.iter().map(|v| pool.to_string(v)).collect();
    let remap = pool.compact(&kept);
    let after: Vec<String> = kept
        .iter()
        .map(|v| pool.to_string(&remap.apply(*v).unwrap()))
        .collect();
    assert_eq!(before, after);
    assert_eq!(
        before,
        vec![
            "function entry:13 params:1 enclosing:1".to_string(),
            "thread".to_string(),
            "-42".to_string(),
            "Nil".to_string(),
        ]
    );
    assert_eq!(pool.len(), 3);
}

#[test]
fn pool_to_string_integers() {
    let pool = ObjectPool::new();
    assert_eq!(pool.to_string(&Value::Integer(0)), "0");
    assert_eq!(pool.to_string(&Value::Integer(1234567)), "1234567");
    assert_eq!(pool.to_string(&Value::Integer(i64::MAX)), "9223372036854775807");
    assert_eq!(pool.to_string(&Value::Integer(i64::MIN)), "-9223372036854775808");
}

#[test]
fn pool_typed_lookups() {
    let mut pool = sample_pool();
    let thread = pool.allocate(Object::Thread(Thread::new(0)));
    assert!(pool.thread(thread).is_ok());
    assert_eq!(pool.function(thread).err(), Some(Error::TypeMismatch));
    assert_eq!(pool.thread(Value::Object(0)).err(), Some(Error::TypeMismatch));
    assert_eq!(pool.function(Value::Object(99)).err(), Some(Error::InvalidHandle));
    assert_eq!(pool.function(Value::Integer(0)).err(), Some(Error::TypeMismatch));
}

#[test]
fn pool_object_references() {
    let mut f = function(1, vec![Value::Object(4), Value::Integer(2), Value::Object(1)]);
    assert_eq!(f.references(), vec![4, 1]);
    f.references_mut().push(Value::Object(7));
    assert_eq!(f.references(), vec![4, 1, 7]);
    let mut t = Thread::new(0);
    t.push(Value::Object(3));
    assert_eq!(Object::Thread(t).references(), vec![3]);
}
