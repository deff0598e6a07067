use vstd::prelude::*;

use crate::error::Error;

verus! {

/// A value of the named-variable interpreter.
#[derive(Clone, Copy, Debug, PartialEq, Eq, Structural)]
pub enum Value {
    Nil,
    Integer(i64),
    Closure { start: usize },
}

impl Value {
    /// The integer this value holds, or `TypeMismatch`.
    pub fn integer(self) -> (r: Result<i64, Error>)
        ensures
            match self {
                Value::Integer(n) => r == Ok::<i64, Error>(n),
                _ => r == Err::<i64, Error>(Error::TypeMismatch),
            },
    {
        match self {
            Value::Integer(n) => Ok(n),
            _ => Err(Error::TypeMismatch),
        }
    }

    /// The start address of the closure this value holds, or `TypeMismatch`.
    pub fn closure(self) -> (r: Result<usize, Error>)
        ensures
            match self {
                Value::Closure { start } => r == Ok::<usize, Error>(start),
                _ => r == Err::<usize, Error>(Error::TypeMismatch),
            },
    {
        match self {
            Value::Closure { start } => Ok(start),
            _ => Err(Error::TypeMismatch),
        }
    }
}

/// An instruction of the named-variable interpreter.
pub enum Expr {
    /// Pop a value and bind it to `name` in the current frame.
    Store { name: String },
    /// Push the value bound to `name` in the current frame.
    Load { name: String },
    /// Push an integer.
    Literal { integer: i64 },
    /// Push a closure that starts at `start`.
    Enclose { start: usize },
    /// Leave the current frame.
    Return,
    /// Pop a closure and enter a new frame at its start.
    Call,
    /// Pop two integers and push their sum.
    Add,
}

/// A frame: the address of its next instruction and its bindings, one per
/// name.
pub struct Frame {
    pub addr: usize,
    pub names: Vec<(String, Value)>,
}

/// The value bound to `name` in `names`: the last binding of that name.
pub open spec fn lookup(names: Seq<(String, Value)>, name: Seq<char>) -> Option<Value>
    decreases names.len(),
{
    if names.len() == 0 {
        None
    } else if names.last().0@ == name {
        Some(names.last().1)
    } else {
        lookup(names.drop_last(), name)
    }
}

/// Rebinding the last binding of a name changes that name alone.
proof fn lemma_lookup_update(names: Seq<(String, Value)>, k: int, entry: (String, Value))
    requires
        0 <= k < names.len(),
        names[k].0@ == entry.0@,
        forall|j: int| k < j < names.len() ==> (#[trigger] names[j]).0@ != entry.0@,
    ensures
        lookup(names.update(k, entry), entry.0@) == Some(entry.1),
        forall|n: Seq<char>|
            n != entry.0@ ==> #[trigger] lookup(names.update(k, entry), n) == lookup(names, n),
    decreases names.len(),
{
    let u = names.update(k, entry);
    if k < names.len() - 1 {
        assert(u.drop_last() =~= names.drop_last().update(k, entry));
        assert(names[names.len() - 1].0@ != entry.0@);
        lemma_lookup_update(names.drop_last(), k, entry);
        assert forall|n: Seq<char>| n != entry.0@ implies #[trigger] lookup(u, n) == lookup(names, n) by {
            assert(u.last() == names.last());
            assert(u.drop_last() == names.drop_last().update(k, entry));
            assert(lookup(names.drop_last().update(k, entry), n) == lookup(names.drop_last(), n));
        }
    } else {
        assert(u.drop_last() =~= names.drop_last());
        assert forall|n: Seq<char>| n != entry.0@ implies #[trigger] lookup(u, n) == lookup(names, n) by {
            assert(u.last() == entry);
        }
    }
}

/// A new binding at the end shadows nothing but its own name.
proof fn lemma_lookup_push(names: Seq<(String, Value)>, entry: (String, Value))
    ensures
        lookup(names.push(entry), entry.0@) == Some(entry.1),
        forall|n: Seq<char>|
            n != entry.0@ ==> #[trigger] lookup(names.push(entry), n) == lookup(names, n),
{
    assert(names.push(entry).drop_last() =~= names);
}

/// The index of the last binding of `name`, if there is one.
fn find_binding(names: &Vec<(String, Value)>, name: &String) -> (r: Option<usize>)
    ensures
        r matches Some(k) ==> k < names@.len() && names@[k as int].0@ == name@ && forall|j: int|
            k < j < names@.len() ==> (#[trigger] names@[j]).0@ != name@,
        r is None ==> forall|j: int| 0 <= j < names@.len() ==> (#[trigger] names@[j]).0@ != name@,
{
    let mut k: usize = names.len();
    while k > 0
        invariant
            k <= names@.len(),
            forall|j: int| k <= j < names@.len() ==> (#[trigger] names@[j]).0@ != name@,
        decreases k,
    {
        if names[k - 1].0 == *name {
            return Some(k - 1);
        }
        k = k - 1;
    }
    None
}

/// `after` is `before` with the top frame moved on by one instruction.
pub open spec fn advanced(before: Seq<Frame>, after: Seq<Frame>) -> bool {
    &&& after.len() == before.len()
    &&& after.drop_last() == before.drop_last()
    &&& after.last().addr == before.last().addr + 1
    &&& after.last().names@ == before.last().names@
}

/// A thread of the named-variable interpreter over a fixed instruction
/// stream.
pub struct Thread<'a> {
    pub exprs: &'a Vec<Expr>,
    pub stack: Vec<Value>,
    pub frames: Vec<Frame>,
}

impl<'a> Thread<'a> {
    /// A thread whose single frame starts at `start` with no bindings.
    pub fn new(exprs: &'a Vec<Expr>, start: usize) -> (r: Thread<'a>)
        ensures
            r.exprs == exprs,
            r.stack@ == Seq::<Value>::empty(),
            r.frames@.len() == 1,
            r.frames@[0].addr == start,
            r.frames@[0].names@ == Seq::<(String, Value)>::empty(),
    {
        let mut frames: Vec<Frame> = Vec::new();
        frames.push(Frame { addr: start, names: Vec::new() });
        Thread { exprs, stack: Vec::new(), frames }
    }

    /// Whether every frame has returned.
    pub fn done(&self) -> (r: bool)
        ensures
            r == (self.frames@.len() == 0),
    {
        self.frames.len() == 0
    }

    /// The value bound to `name` in the current frame.
    fn load(&self, name: &String) -> (r: Result<Value, Error>)
        requires
            self.frames@.len() > 0,
        ensures
            match lookup(self.frames@.last().names@, name@) {
                Some(v) => r == Ok::<Value, Error>(v),
                None => r == Err::<Value, Error>(Error::UnboundName),
            },
    {
        let frame = &self.frames[self.frames.len() - 1];
        let mut k: usize = frame.names.len();
        assert(frame.names@.subrange(0, k as int) =~= frame.names@);
        while k > 0
            invariant
                k <= frame.names@.len(),
                frame.names@ == self.frames@.last().names@,
                lookup(frame.names@, name@) == lookup(frame.names@.subrange(0, k as int), name@),
            decreases k,
        {
            let ghost prefix = frame.names@.subrange(0, k as int);
            assert(prefix.drop_last() =~= frame.names@.subrange(0, k - 1));
            if frame.names[k - 1].0 == *name {
                return Ok(frame.names[k - 1].1);
            }
            k = k - 1;
        }
        Err(Error::UnboundName)
    }

    /// Binds `name` to `value` in the current frame.
    fn store(&mut self, name: String, value: Value)
        requires
            old(self).frames@.len() > 0,
        ensures
            final(self).exprs == old(self).exprs,
            final(self).stack@ == old(self).stack@,
            final(self).frames@.len() == old(self).frames@.len(),
            final(self).frames@.drop_last() == old(self).frames@.drop_last(),
            final(self).frames@.last().addr == old(self).frames@.last().addr,
            lookup(final(self).frames@.last().names@, name@) == Some(value),
            forall|n: Seq<char>|
                n != name@ ==> #[trigger] lookup(final(self).frames@.last().names@, n) == lookup(
                    old(self).frames@.last().names@,
                    n,
                ),
    {
        let mut frame = match self.frames.pop() {
            Some(f) => f,
            None => Frame { addr: 0, names: Vec::new() },
        };
        let ghost names = frame.names@;
        let ghost entry = (name, value);
        if let Some(k) = find_binding(&frame.names, &name) {
            proof {
                lemma_lookup_update(names, k as int, entry);
            }
            frame.names.set(k, (name, value));
        } else {
            proof {
                lemma_lookup_push(names, entry);
            }
            frame.names.push((name, value));
        }
        self.frames.push(frame);
        proof {
            assert(self.frames@.drop_last() =~= old(self).frames@.drop_last());
        }
    }

    /// Removes and returns the top of the stack.
    fn pop(&mut self) -> (r: Result<Value, Error>)
        ensures
            final(self).exprs == old(self).exprs,
            final(self).frames@ == old(self).frames@,
            old(self).stack@.len() > 0 ==> r == Ok::<Value, Error>(old(self).stack@.last())
                && final(self).stack@ == old(self).stack@.drop_last(),
            old(self).stack@.len() == 0 ==> r == Err::<Value, Error>(Error::StackUnderflow)
                && final(self).stack@ == old(self).stack@,
    {
        match self.stack.pop() {
            Some(v) => Ok(v),
            None => Err(Error::StackUnderflow),
        }
    }

    /// Puts `value` on top of the stack.
    fn push(&mut self, value: Value)
        ensures
            final(self).exprs == old(self).exprs,
            final(self).frames@ == old(self).frames@,
            final(self).stack@ == old(self).stack@.push(value),
    {
        self.stack.push(value);
    }
    /// Moves the top frame on by one instruction.
    fn advance(&mut self)
        requires
            old(self).frames@.len() > 0,
            old(self).frames@.last().addr < usize::MAX,
        ensures
            final(self).exprs == old(self).exprs,
            final(self).stack@ == old(self).stack@,
            advanced(old(self).frames@, final(self).frames@),
    {
        let mut frame = match self.frames.pop() {
            Some(f) => f,
            None => Frame { addr: 0, names: Vec::new() },
        };
        frame.addr = frame.addr + 1;
        self.frames.push(frame);
        proof {
            assert(self.frames@.drop_last() =~= old(self).frames@.drop_last());
        }
    }

    /// Executes the instruction at the top frame's address. Does nothing once
    /// every frame has returned. A failing instruction changes nothing.
    pub fn step(&mut self) -> (r: Result<(), Error>)
        ensures
            final(self).exprs == old(self).exprs,
            old(self).frames@.len() == 0 ==> r is Ok && final(self).stack@ == old(self).stack@
                && final(self).frames@ == old(self).frames@,
            old(self).frames@.len() > 0 && old(self).frames@.last().addr >= old(self).exprs@.len()
                ==> r == Err::<(), Error>(Error::InvalidAddress) && final(self).stack@ == old(
                self,
            ).stack@ && final(self).frames@ == old(self).frames@,
            r is Err ==> final(self).stack@ == old(self).stack@ && final(self).frames@ == old(
                self,
            ).frames@,
            old(self).frames@.len() > 0 && old(self).frames@.last().addr < old(self).exprs@.len()
                ==> {
                let s = old(self).stack@;
                let fr = old(self).frames@;
                match old(self).exprs@[fr.last().addr as int] {
                    Expr::Store { name } => if s.len() == 0 {
                        r == Err::<(), Error>(Error::StackUnderflow)
                    } else {
                        &&& r is Ok
                        &&& final(self).stack@ == s.drop_last()
                        &&& final(self).frames@.len() == fr.len()
                        &&& final(self).frames@.drop_last() == fr.drop_last()
                        &&& final(self).frames@.last().addr == fr.last().addr + 1
                        &&& lookup(final(self).frames@.last().names@, name@) == Some(s.last())
                        &&& forall|n: Seq<char>|
                            n != name@ ==> #[trigger] lookup(final(self).frames@.last().names@, n)
                                == lookup(fr.last().names@, n)
                    },
                    Expr::Load { name } => match lookup(fr.last().names@, name@) {
                        Some(v) => r is Ok && final(self).stack@ == s.push(v) && advanced(
                            fr,
                            final(self).frames@,
                        ),
                        None => r == Err::<(), Error>(Error::UnboundName),
                    },
                    Expr::Literal { integer } => r is Ok && final(self).stack@ == s.push(
                        Value::Integer(integer),
                    ) && advanced(fr, final(self).frames@),
                    Expr::Enclose { start } => r is Ok && final(self).stack@ == s.push(
                        Value::Closure { start },
                    ) && advanced(fr, final(self).frames@),
                    Expr::Return => r is Ok && final(self).stack@ == s && final(self).frames@
                        == fr.drop_last(),
                    Expr::Call => if s.len() == 0 {
                        r == Err::<(), Error>(Error::StackUnderflow)
                    } else if !(s.last() is Closure) {
                        r == Err::<(), Error>(Error::TypeMismatch)
                    } else {
                        &&& r is Ok
                        &&& final(self).stack@ == s.drop_last()
                        &&& advanced(fr, final(self).frames@.drop_last())
                        &&& final(self).frames@.last().addr == s.last()->start
                        &&& final(self).frames@.last().names@.len() == 0
                    },
                    Expr::Add => if s.len() < 2 {
                        r == Err::<(), Error>(Error::StackUnderflow)
                    } else if !(s.last() is Integer && s[s.len() - 2] is Integer) {
                        r == Err::<(), Error>(Error::TypeMismatch)
                    } else if !(i64::MIN <= s.last()->Integer_0 + s[s.len() - 2]->Integer_0
                        <= i64::MAX) {
                        r == Err::<(), Error>(Error::Overflow)
                    } else {
                        &&& r is Ok
                        &&& final(self).stack@ == s.drop_last().drop_last().push(
                            Value::Integer((s.last()->Integer_0 + s[s.len() - 2]->Integer_0) as i64),
                        )
                        &&& advanced(fr, final(self).frames@)
                    },
                }
            },
    {
        let depth = self.frames.len();
        if depth == 0 {
            return Ok(());
        }
        let addr = self.frames[depth - 1].addr;
        if addr >= self.exprs.len() {
            return Err(Error::InvalidAddress);
        }
        let exprs = self.exprs;
        match &exprs[addr] {
            Expr::Store { name } => {
                if self.stack.len() == 0 {
                    return Err(Error::StackUnderflow);
                }
                let value = match self.pop() {
                    Ok(v) => v,
                    Err(e) => {
                        return Err(e);
                    },
                };
                self.advance();
                self.store(name.clone(), value);
                Ok(())
            },
            Expr::Load { name } => {
                let value = match self.load(name) {
                    Ok(v) => v,
                    Err(e) => {
                        return Err(e);
                    },
                };
                self.advance();
                self.push(value);
                Ok(())
            },
            Expr::Literal { integer } => {
                self.advance();
                self.push(Value::Integer(*integer));
                Ok(())
            },
            Expr::Add => {
                let n = self.stack.len();
                if n < 2 {
                    return Err(Error::StackUnderflow);
                }
                let (a, b) = match (self.stack[n - 1], self.stack[n - 2]) {
                    (Value::Integer(a), Value::Integer(b)) => (a, b),
                    _ => {
                        return Err(Error::TypeMismatch);
                    },
                };
                let wide: i128 = a as i128 + b as i128;
                if wide < i64::MIN as i128 || wide > i64::MAX as i128 {
                    return Err(Error::Overflow);
                }
                self.advance();
                let _ = self.pop();
                let _ = self.pop();
                self.push(Value::Integer(wide as i64));
                Ok(())
            },
            Expr::Enclose { start } => {
                self.advance();
                self.push(Value::Closure { start: *start });
                Ok(())
            },
            Expr::Return => {
                let _ = self.frames.pop();
                Ok(())
            },
            Expr::Call => {
                let n = self.stack.len();
                if n == 0 {
                    return Err(Error::StackUnderflow);
                }
                let start = match self.stack[n - 1].closure() {
                    Ok(start) => start,
                    Err(e) => {
                        return Err(e);
                    },
                };
                self.advance();
                let _ = self.pop();
                let ghost moved = self.frames@;
                self.frames.push(Frame { addr: start, names: Vec::new() });
                proof {
                    assert(self.frames@.drop_last() =~= moved);
                }
                Ok(())
            },
        }
    }
}

} // verus!
