use vstd::prelude::*;

use crate::error::Error;

verus! {

/// A value of the machine, copied freely: nothing, an integer, or a handle
/// into an object pool.
#[derive(Clone, Copy, Debug, PartialEq, Eq, Structural)]
pub enum Value {
    Nil,
    Integer(i64),
    Object(usize),
}

impl Value {
    /// The integer this value holds, or `TypeMismatch` for any other kind.
    pub fn integer(&self) -> (r: Result<i64, Error>)
        ensures
            match *self {
                Value::Integer(n) => r == Ok::<i64, Error>(n),
                _ => r == Err::<i64, Error>(Error::TypeMismatch),
            },
    {
        match self {
            Value::Integer(n) => Ok(*n),
            _ => Err(Error::TypeMismatch),
        }
    }
}

} // verus!
