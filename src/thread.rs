use vstd::prelude::*;

use crate::error::Error;
use crate::function::Function;
use crate::value::Value;

verus! {

/// One activation: the address of its next instruction and the position in
/// the operand stack where its locals begin.
#[derive(Clone, Copy, Debug, PartialEq, Eq, Structural)]
pub struct Frame {
    pub addr: usize,
    pub stack_offset: usize,
}

/// An execution context: an operand stack and a stack of frames.
pub struct Thread {
    pub stack: Vec<Value>,
    pub frames: Vec<Frame>,
}

impl Thread {
    /// The frame that runs now; meaningful when there is one.
    pub open spec fn top(&self) -> Frame {
        self.frames@.last()
    }

    /// The operand stack after a return from the top frame: everything below
    /// the frame's locals, then the value that was on top.
    pub open spec fn returned_stack(&self) -> Seq<Value> {
        self.stack@.subrange(0, self.top().stack_offset as int).push(self.stack@.last())
    }

    /// A context whose single frame starts at `start` with an empty stack.
    pub fn new(start: usize) -> (r: Thread)
        ensures
            r.stack@ == Seq::<Value>::empty(),
            r.frames@ == seq![Frame { addr: start, stack_offset: 0 }],
    {
        let mut frames: Vec<Frame> = Vec::new();
        frames.push(Frame { addr: start, stack_offset: 0 });
        Thread { stack: Vec::new(), frames }
    }

    /// The address of the next instruction of the top frame, which then moves
    /// on by one; `None` once every frame has returned.
    pub fn advance(&mut self) -> (r: Option<usize>)
        requires
            old(self).frames@.len() > 0 ==> old(self).top().addr < usize::MAX,
        ensures
            final(self).stack@ == old(self).stack@,
            old(self).frames@.len() == 0 ==> r is None && final(self).frames@ == old(self).frames@,
            old(self).frames@.len() > 0 ==> {
                &&& r == Some(old(self).top().addr)
                &&& final(self).frames@ == old(self).frames@.update(
                    old(self).frames@.len() - 1,
                    Frame { addr: (old(self).top().addr + 1) as usize, ..old(self).top() },
                )
            },
    {
        let n = self.frames.len();
        if n == 0 {
            return None;
        }
        let frame = self.frames[n - 1];
        self.frames.set(n - 1, Frame { addr: frame.addr + 1, stack_offset: frame.stack_offset });
        Some(frame.addr)
    }

    /// Whether every frame has returned.
    pub fn done(&self) -> (r: bool)
        ensures
            r == (self.frames@.len() == 0),
    {
        self.frames.len() == 0
    }

    /// Local `i` of the top frame: the stack entry `i` places above its base.
    pub fn get(&self, i: usize) -> (r: Result<Value, Error>)
        ensures
            self.frames@.len() > 0 && self.top().stack_offset + i < self.stack@.len() ==> r
                == Ok::<Value, Error>(self.stack@[self.top().stack_offset + i]),
            !(self.frames@.len() > 0 && self.top().stack_offset + i < self.stack@.len()) ==> r
                == Err::<Value, Error>(Error::InvalidLocal),
    {
        let n = self.frames.len();
        if n == 0 {
            return Err(Error::InvalidLocal);
        }
        let base = self.frames[n - 1].stack_offset;
        if base >= self.stack.len() || i >= self.stack.len() - base {
            return Err(Error::InvalidLocal);
        }
        Ok(self.stack[base + i])
    }

    /// Removes and returns the top of the operand stack.
    pub fn pop(&mut self) -> (r: Result<Value, Error>)
        ensures
            final(self).frames@ == old(self).frames@,
            old(self).stack@.len() > 0 ==> r == Ok::<Value, Error>(old(self).stack@.last())
                && final(self).stack@ == old(self).stack@.drop_last(),
            old(self).stack@.len() == 0 ==> r == Err::<Value, Error>(Error::StackUnderflow)
                && final(self).stack@ == old(self).stack@,
    {
        match self.stack.pop() {
            Some(v) => Ok(v),
            None => Err(Error::StackUnderflow),
        }
    }

    /// The top of the operand stack, left in place.
    pub fn peek(&self) -> (r: Result<Value, Error>)
        ensures
            self.stack@.len() > 0 ==> r == Ok::<Value, Error>(self.stack@.last()),
            self.stack@.len() == 0 ==> r == Err::<Value, Error>(Error::StackUnderflow),
    {
        let n = self.stack.len();
        if n == 0 {
            Err(Error::StackUnderflow)
        } else {
            Ok(self.stack[n - 1])
        }
    }

    /// Removes the top `n` values and returns them in stack order.
    pub fn pop_n(&mut self, n: usize) -> (r: Result<Vec<Value>, Error>)
        ensures
            final(self).frames@ == old(self).frames@,
            n <= old(self).stack@.len() ==> {
                &&& r is Ok
                &&& r->Ok_0@ == old(self).stack@.subrange(
                    old(self).stack@.len() - n,
                    old(self).stack@.len() as int,
                )
                &&& final(self).stack@ == old(self).stack@.subrange(
                    0,
                    old(self).stack@.len() - n,
                )
            },
            n > old(self).stack@.len() ==> r == Err::<Vec<Value>, Error>(Error::StackUnderflow)
                && final(self).stack@ == old(self).stack@,
    {
        let len = self.stack.len();
        if n > len {
            return Err(Error::StackUnderflow);
        }
        Ok(self.stack.split_off(len - n))
    }

    /// Puts `value` on top of the operand stack.
    pub fn push(&mut self, value: Value)
        ensures
            final(self).frames@ == old(self).frames@,
            final(self).stack@ == old(self).stack@.push(value),
    {
        self.stack.push(value);
    }

    /// Returns from the top frame: the value on top of the stack replaces
    /// everything from the frame's base upwards.
    ///
    /// Fails with `StackUnderflow`, changing nothing, when there is no frame
    /// or the top of the stack lies below the frame's base.
    pub fn ret(&mut self) -> (r: Result<(), Error>)
        ensures
            old(self).frames@.len() > 0 && old(self).top().stack_offset < old(self).stack@.len()
                ==> {
                &&& r is Ok
                &&& final(self).frames@ == old(self).frames@.drop_last()
                &&& final(self).stack@ == old(self).returned_stack()
                &&& final(self).stack@.len() == old(self).top().stack_offset + 1
            },
            !(old(self).frames@.len() > 0 && old(self).top().stack_offset
                < old(self).stack@.len()) ==> {
                &&& r == Err::<(), Error>(Error::StackUnderflow)
                &&& final(self).frames@ == old(self).frames@
                &&& final(self).stack@ == old(self).stack@
            },
    {
        let n = self.frames.len();
        if n == 0 {
            return Err(Error::StackUnderflow);
        }
        let base = self.frames[n - 1].stack_offset;
        let len = self.stack.len();
        if base >= len {
            return Err(Error::StackUnderflow);
        }
        let retval = self.stack[len - 1];
        self.frames.pop();
        self.stack.truncate(base);
        self.stack.push(retval);
        proof {
            assert(self.stack@ =~= old(self).returned_stack());
        }
        Ok(())
    }

    /// Enters `function`. The caller has pushed its arguments and then the
    /// function value itself; the captured values are pushed after them, and
    /// the new frame's locals start at the first argument.
    ///
    /// Fails with `StackUnderflow`, changing nothing, when the stack holds
    /// fewer than `num_params + 1` values.
    pub fn call(&mut self, function: Function) -> (r: Result<(), Error>)
        ensures
            function.num_params < old(self).stack@.len() ==> {
                &&& r is Ok
                &&& final(self).stack@ == old(self).stack@ + function.closure@
                &&& final(self).frames@ == old(self).frames@.push(
                    Frame {
                        addr: function.entry,
                        stack_offset: (old(self).stack@.len() - function.num_params
                            - 1) as usize,
                    },
                )
                &&& final(self).stack@[final(self).top().stack_offset + function.num_params]
                    == old(self).stack@.last()
            },
            function.num_params >= old(self).stack@.len() ==> {
                &&& r == Err::<(), Error>(Error::StackUnderflow)
                &&& final(self).frames@ == old(self).frames@
                &&& final(self).stack@ == old(self).stack@
            },
    {
        let len = self.stack.len();
        let num_params = function.num_params as usize;
        if num_params >= len {
            return Err(Error::StackUnderflow);
        }
        let stack_offset = len - num_params - 1;
        let mut closure = function.closure;
        self.stack.append(&mut closure);
        self.frames.push(Frame { addr: function.entry, stack_offset });
        Ok(())
    }
}

} // verus!
