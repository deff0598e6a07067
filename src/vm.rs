use vstd::prelude::*;

use crate::error::Error;
use crate::function::Function;
use crate::object::{function_is, remap_value, thread_is, Object};
use crate::pool::ObjectPool;
use crate::reach::{
    all_valid, compacted, compaction_map, lemma_no_root_handles, lemma_root_reachable, lemma_survivor_in_range, lemma_survivors_bounded, valid_value,
};
use crate::thread::{Frame, Thread};
use crate::value::Value;

verus! {

/// One instruction of the machine.
#[derive(Clone, Copy, Debug, PartialEq, Eq, Structural)]
pub enum Expr {
    /// Push local `i` of the current frame.
    Load { i: usize },
    /// Push an integer.
    Literal { integer: i64 },
    /// Pop `closure_len` values and push a new function that captures them.
    Function { entry: usize, closure_len: u32, num_params: u32 },
    /// Pop `b`, pop `a`, push `a + b`.
    Add,
    /// Pop `b`, pop `a`, push `a - b`.
    Sub,
    /// Pop an integer and jump to `target` when it is not zero.
    BranchIfNotZero { target: usize },
    /// Jump to `target`.
    Branch { target: usize },
    /// Call the function on top of the stack, below which lie its arguments.
    Call { num_args: u32 },
    /// Return the top of the stack from the current frame.
    Return,
}

/// `a + b` or `a - b`.
pub open spec fn arith(a: i64, b: i64, add: bool) -> int {
    if add {
        a + b
    } else {
        a - b
    }
}

/// Why `Add` (when `add`) or `Sub` fails on stack `s`, if it does.
pub open spec fn arith_failure(s: Seq<Value>, add: bool) -> Option<Error> {
    if s.len() < 2 {
        Some(Error::StackUnderflow)
    } else if !(s[s.len() - 2] is Integer && s.last() is Integer) {
        Some(Error::TypeMismatch)
    } else if !(i64::MIN <= arith(s[s.len() - 2]->Integer_0, s.last()->Integer_0, add)
        <= i64::MAX) {
        Some(Error::Overflow)
    } else {
        None
    }
}

/// Why executing `e` on thread `h` of the pool `objs` fails, if it does.
pub open spec fn step_failure(objs: Seq<Object>, h: usize, e: Expr) -> Option<Error> {
    let t = objs[h as int]->Thread_0;
    let s = t.stack@;
    let fr = t.frames@;
    match e {
        Expr::Load { i } => if fr.len() > 0 && fr.last().stack_offset + i < s.len() {
            None
        } else {
            Some(Error::InvalidLocal)
        },
        Expr::Literal { .. } => None,
        Expr::Add => arith_failure(s, true),
        Expr::Sub => arith_failure(s, false),
        Expr::Function { closure_len, .. } => if closure_len <= s.len() {
            None
        } else {
            Some(Error::StackUnderflow)
        },
        Expr::BranchIfNotZero { .. } => if s.len() == 0 {
            Some(Error::StackUnderflow)
        } else if !(s.last() is Integer) {
            Some(Error::TypeMismatch)
        } else if fr.len() == 0 {
            Some(Error::StackUnderflow)
        } else {
            None
        },
        Expr::Branch { .. } => if fr.len() == 0 {
            Some(Error::StackUnderflow)
        } else {
            None
        },
        Expr::Call { num_args } => if s.len() == 0 {
            Some(Error::StackUnderflow)
        } else {
            match s.last() {
                Value::Object(i) => if i >= objs.len() {
                    Some(Error::InvalidHandle)
                } else {
                    match objs[i as int] {
                        Object::Function(f) => if f.num_params != num_args {
                            Some(Error::ArityMismatch)
                        } else if f.num_params >= s.len() {
                            Some(Error::StackUnderflow)
                        } else {
                            None
                        },
                        _ => Some(Error::TypeMismatch),
                    }
                },
                _ => Some(Error::TypeMismatch),
            }
        },
        Expr::Return => if fr.len() > 0 && fr.last().stack_offset < s.len() {
            None
        } else {
            Some(Error::StackUnderflow)
        },
    }
}

/// `after` differs from `before` at most in object `h`, which is a thread
/// with the given stack and frames.
pub open spec fn thread_updated(
    before: Seq<Object>,
    after: Seq<Object>,
    h: usize,
    stack: Seq<Value>,
    frames: Seq<Frame>,
) -> bool {
    &&& after.len() == before.len()
    &&& forall|j: int| 0 <= j < before.len() && j != h ==> after[j] == before[j]
    &&& thread_is(after[h as int], stack, frames)
}

/// The frames with the top one moved to `target`.
pub open spec fn jumped(fr: Seq<Frame>, target: usize) -> Seq<Frame> {
    fr.update(fr.len() - 1, Frame { addr: target, ..fr.last() })
}

/// What a successful execution of `e` on thread `h` does: `before` becomes
/// `after`, and `res` is the program's result when the outermost frame
/// returned.
pub open spec fn step_effect(
    before: Seq<Object>,
    h: usize,
    e: Expr,
    after: Seq<Object>,
    res: Option<Value>,
) -> bool {
    let t = before[h as int]->Thread_0;
    let s = t.stack@;
    let fr = t.frames@;
    let len = s.len();
    match e {
        Expr::Load { i } => res is None && thread_updated(
            before,
            after,
            h,
            s.push(s[fr.last().stack_offset + i]),
            fr,
        ),
        Expr::Literal { integer } => res is None && thread_updated(
            before,
            after,
            h,
            s.push(Value::Integer(integer)),
            fr,
        ),
        Expr::Add => res is None && thread_updated(
            before,
            after,
            h,
            s.drop_last().drop_last().push(
                Value::Integer(arith(s[len - 2]->Integer_0, s.last()->Integer_0, true) as i64),
            ),
            fr,
        ),
        Expr::Sub => res is None && thread_updated(
            before,
            after,
            h,
            s.drop_last().drop_last().push(
                Value::Integer(arith(s[len - 2]->Integer_0, s.last()->Integer_0, false) as i64),
            ),
            fr,
        ),
        Expr::Function { entry, closure_len, num_params } => {
            &&& res is None
            &&& after.len() == before.len() + 1
            &&& forall|j: int| 0 <= j < before.len() && j != h ==> after[j] == before[j]
            &&& function_is(after[before.len() as int], entry, num_params, s.subrange(len - closure_len, len as int))
            &&& thread_is(
                after[h as int],
                s.subrange(0, len - closure_len).push(Value::Object(before.len() as usize)),
                fr,
            )
        },
        Expr::BranchIfNotZero { target } => res is None && thread_updated(
            before,
            after,
            h,
            s.drop_last(),
            if s.last()->Integer_0 != 0 {
                jumped(fr, target)
            } else {
                fr
            },
        ),
        Expr::Branch { target } => res is None && thread_updated(before, after, h, s, jumped(fr, target)),
        Expr::Call { .. } => {
            let f = before[s.last()->Object_0 as int]->Function_0;
            res is None && thread_updated(
                before,
                after,
                h,
                s + f.closure@,
                fr.push(Frame { addr: f.entry, stack_offset: (len - f.num_params - 1) as usize }),
            )
        },
        Expr::Return => {
            let base = fr.last().stack_offset;
            if fr.len() == 1 {
                res == Some(s.last()) && thread_updated(
                    before,
                    after,
                    h,
                    s.subrange(0, base as int),
                    fr.drop_last(),
                )
            } else {
                res is None && thread_updated(
                    before,
                    after,
                    h,
                    s.subrange(0, base as int).push(s.last()),
                    fr.drop_last(),
                )
            }
        },
    }
}

/// The outcome `r` of executing `e` on thread `h`: the failure, with the pool
/// unchanged, or the effect.
pub open spec fn step_result(
    before: Seq<Object>,
    h: usize,
    e: Expr,
    after: Seq<Object>,
    r: Result<Option<Value>, Error>,
) -> bool {
    let t = before[h as int]->Thread_0;
    match step_failure(before, h, e) {
        Some(err) => r == Err::<Option<Value>, Error>(err) && thread_updated(
            before,
            after,
            h,
            t.stack@,
            t.frames@,
        ),
        None => r is Ok && step_effect(before, h, e, after, r->Ok_0),
    }
}

/// The outcome `r` of fetching the next instruction of thread `h` from
/// `code`: the address, with the top frame moved on by one, or the failure,
/// with the pool unchanged.
pub open spec fn fetched(
    before: Seq<Object>,
    h: usize,
    code: Seq<Expr>,
    after: Seq<Object>,
    r: Result<usize, Error>,
) -> bool {
    let t = before[h as int]->Thread_0;
    let fr = t.frames@;
    if fr.len() == 0 {
        r == Err::<usize, Error>(Error::StackUnderflow) && thread_updated(before, after, h, t.stack@, fr)
    } else if fr.last().addr >= code.len() {
        r == Err::<usize, Error>(Error::InvalidAddress) && thread_updated(before, after, h, t.stack@, fr)
    } else {
        r == Ok::<usize, Error>(fr.last().addr) && thread_updated(
            before,
            after,
            h,
            t.stack@,
            jumped(fr, (fr.last().addr + 1) as usize),
        )
    }
}

/// `after` is `before` compacted from `v` alone, and `r` is `v` renumbered.
pub open spec fn finished(before: Seq<Object>, v: Value, after: Seq<Object>, r: Result<Value, Error>) -> bool {
    let m = compaction_map(before, seq![v]);
    compacted(before, seq![v], after, m) && r == Ok::<Value, Error>(remap_value(m, v))
}

/// Running thread `h` on `code` for at most `fuel` instructions takes the
/// pool from `before` to `after` with outcome `r`: an instruction is fetched
/// and executed in turn until one fails, the outermost frame returns (the
/// pool is then compacted from the result), or the fuel runs out.
pub open spec fn runs(
    before: Seq<Object>,
    h: usize,
    code: Seq<Expr>,
    fuel: nat,
    after: Seq<Object>,
    r: Result<Value, Error>,
) -> bool
    decreases fuel,
{
    if fuel == 0 {
        r == Err::<Value, Error>(Error::OutOfSteps) && after == before
    } else {
        exists|mid: Seq<Object>, a: Result<usize, Error>|
            #[trigger] fetched(before, h, code, mid, a) && match a {
                Err(e) => r == Err::<Value, Error>(e) && after == mid,
                Ok(addr) => exists|next: Seq<Object>, o: Result<Option<Value>, Error>|
                    #[trigger] step_result(mid, h, code[addr as int], next, o) && match o {
                        Err(e) => r == Err::<Value, Error>(e) && after == next,
                        Ok(Some(v)) => finished(next, v, after, r),
                        Ok(None) => runs(next, h, code, (fuel - 1) as nat, after, r),
                    },
            }
    }
}

/// Running `code` from `entry` in a new thread appended to the pool `before`
/// takes it to `after` with outcome `r`, within `fuel` instructions.
pub open spec fn runs_from(
    before: Seq<Object>,
    entry: usize,
    code: Seq<Expr>,
    fuel: nat,
    after: Seq<Object>,
    r: Result<Value, Error>,
) -> bool {
    exists|init: Seq<Object>|
        init.len() == before.len() + 1 && init.drop_last() == before && thread_is(
            init.last(),
            Seq::empty(),
            seq![Frame { addr: entry, stack_offset: 0 }],
        ) && #[trigger] runs(init, before.len() as usize, code, fuel, after, r)
}

/// Calling a function opens a frame whose local `num_params` is the function
/// itself: the load of that slot succeeds and pushes the callee, which can
/// so call itself again.
pub proof fn lemma_callee_in_own_frame(
    before: Seq<Object>,
    h: usize,
    num_args: u32,
    after: Seq<Object>,
)
    requires
        h < before.len(),
        before[h as int] is Thread,
        before[h as int]->Thread_0.stack@.len() <= usize::MAX,
        step_result(before, h, Expr::Call { num_args }, after, Ok(None)),
    ensures
        step_failure(after, h, Expr::Load { i: num_args as usize }) is None,
        ({
            let u = after[h as int]->Thread_0;
            u.stack@[u.frames@.last().stack_offset + num_args] == before[h as int]->Thread_0.stack@.last()
        }),
{
    let s = before[h as int]->Thread_0.stack@;
    let f = before[s.last()->Object_0 as int]->Function_0;
    assert((s + f.closure@)[s.len() - 1] == s.last());
}

/// A call whose argument count differs from the callee's arity fails with
/// `ArityMismatch` and leaves the thread as it was.
pub proof fn lemma_arity_enforced(
    before: Seq<Object>,
    h: usize,
    num_args: u32,
    after: Seq<Object>,
    r: Result<Option<Value>, Error>,
)
    requires
        h < before.len(),
        before[h as int] is Thread,
        step_result(before, h, Expr::Call { num_args }, after, r),
        ({
            let s = before[h as int]->Thread_0.stack@;
            &&& s.len() > 0
            &&& s.last() is Object
            &&& s.last()->Object_0 < before.len()
            &&& before[s.last()->Object_0 as int] is Function
            &&& before[s.last()->Object_0 as int]->Function_0.num_params != num_args
        }),
    ensures
        r == Err::<Option<Value>, Error>(Error::ArityMismatch),
        thread_updated(
            before,
            after,
            h,
            before[h as int]->Thread_0.stack@,
            before[h as int]->Thread_0.frames@,
        ),
{
}

/// The machine: an object pool in which threads run.
pub struct VM {
    pub pool: ObjectPool,
}

impl VM {
    /// A machine with an empty pool.
    pub fn new() -> (r: VM)
        ensures
            r.pool@ == Seq::<Object>::empty(),
            r.pool.wf(),
    {
        VM { pool: ObjectPool::new() }
    }

    /// Executes one instruction on the thread that the handle `thread` names.
    /// Returns the program's result once the outermost frame has returned.
    pub fn step(&mut self, expr: Expr, thread: Value) -> (r: Result<Option<Value>, Error>)
        requires
            old(self).pool.wf(),
            thread is Object,
            thread->Object_0 < old(self).pool@.len(),
            old(self).pool@[thread->Object_0 as int] is Thread,
        ensures
            final(self).pool.wf(),
            step_result(old(self).pool@, thread->Object_0, expr, final(self).pool@, r),
            r matches Ok(Some(v)) ==> valid_value(v, final(self).pool@.len()),
    {
        let h = match thread {
            Value::Object(i) => i,
            _ => 0,
        };
        let ghost before = self.pool@;
        let mut t = self.pool.take_thread(h);
        proof {
            assert(all_valid(before[h as int].values(), before.len()));
        }
        let r: Result<Option<Value>, Error> = match expr {
            Expr::Load { i } => match t.get(i) {
                Ok(v) => {
                    t.push(v);
                    Ok(None)
                },
                Err(e) => Err(e),
            },
            Expr::Literal { integer } => {
                t.push(Value::Integer(integer));
                Ok(None)
            },
            Expr::Add => arith_step(&mut t, true),
            Expr::Sub => arith_step(&mut t, false),
            Expr::Function { entry, closure_len, num_params } => {
                match t.pop_n(closure_len as usize) {
                    Ok(closure) => {
                        let v = self.pool.allocate(
                            Object::Function(Function { entry, num_params, closure }),
                        );
                        t.push(v);
                        Ok(None)
                    },
                    Err(e) => Err(e),
                }
            },
            Expr::BranchIfNotZero { target } => {
                let n = t.stack.len();
                if n == 0 {
                    Err(Error::StackUnderflow)
                } else {
                    match t.stack[n - 1] {
                        Value::Integer(k) => {
                            if t.frames.len() == 0 {
                                Err(Error::StackUnderflow)
                            } else {
                                let _ = t.pop();
                                if k != 0 {
                                    jump(&mut t, target);
                                }
                                Ok(None)
                            }
                        },
                        _ => Err(Error::TypeMismatch),
                    }
                }
            },
            Expr::Branch { target } => {
                if t.frames.len() == 0 {
                    Err(Error::StackUnderflow)
                } else {
                    jump(&mut t, target);
                    Ok(None)
                }
            },
            Expr::Call { num_args } => match t.peek() {
                Ok(value) => match self.pool.function(value) {
                    Ok(function) => {
                        if function.num_params != num_args {
                            Err(Error::ArityMismatch)
                        } else {
                            let function = function.duplicate();
                            proof {
                                assert(all_valid(
                                    before[value->Object_0 as int].values(),
                                    before.len(),
                                ));
                            }
                            match t.call(function) {
                                Ok(()) => Ok(None),
                                Err(e) => Err(e),
                            }
                        }
                    },
                    Err(e) => Err(e),
                },
                Err(e) => Err(e),
            },
            Expr::Return => match t.ret() {
                Ok(()) => {
                    if t.done() {
                        let ghost returned = t.stack@;
                        match t.pop() {
                            Ok(v) => {
                                proof {
                                    let s0 = before[h as int]->Thread_0.stack@;
                                    let base = before[h as int]->Thread_0.frames@.last().stack_offset;
                                    assert(returned.drop_last() =~= s0.subrange(0, base as int));
                                }
                                Ok(Some(v))
                            },
                            Err(e) => Err(e),
                        }
                    } else {
                        Ok(None)
                    }
                },
                Err(e) => Err(e),
            },
        };
        self.pool.put_thread(h, t);
        r
    }
    /// Allocates a thread whose single frame starts at `entry`, and returns
    /// its handle.
    pub fn start(&mut self, entry: usize) -> (r: Value)
        requires
            old(self).pool.wf(),
        ensures
            final(self).pool.wf(),
            r is Object,
            r->Object_0 == old(self).pool@.len(),
            final(self).pool@.len() == old(self).pool@.len() + 1,
            forall|j: int| 0 <= j < old(self).pool@.len() ==> final(self).pool@[j] == old(
                self,
            ).pool@[j],
            thread_is(
                final(self).pool@[old(self).pool@.len() as int],
                Seq::empty(),
                seq![Frame { addr: entry, stack_offset: 0 }],
            ),
    {
        let h = self.pool.len();
        let r = self.pool.allocate(Object::Thread(Thread::new(entry)));
        assert(r == Value::Object(h));
        r
    }

    /// The address of the next instruction of `thread`, whose top frame then
    /// moves on by one. Fails with `StackUnderflow` when the thread has no
    /// frame, and with `InvalidAddress` when the address lies outside
    /// `exprs`; the pool is unchanged then.
    pub fn fetch(&mut self, exprs: &[Expr], thread: Value) -> (r: Result<usize, Error>)
        requires
            old(self).pool.wf(),
            thread is Object,
            thread->Object_0 < old(self).pool@.len(),
            old(self).pool@[thread->Object_0 as int] is Thread,
        ensures
            final(self).pool.wf(),
            fetched(old(self).pool@, thread->Object_0, exprs@, final(self).pool@, r),
    {
        let h = match thread {
            Value::Object(i) => i,
            _ => 0,
        };
        proof {
            assert(all_valid(self.pool@[h as int].values(), self.pool@.len()));
        }
        let mut t = self.pool.take_thread(h);
        let depth = t.frames.len();
        let r = if depth == 0 {
            Err(Error::StackUnderflow)
        } else {
            let addr = t.frames[depth - 1].addr;
            if addr >= exprs.len() {
                Err(Error::InvalidAddress)
            } else {
                let _ = t.advance();
                Ok(addr)
            }
        };
        self.pool.put_thread(h, t);
        r
    }

    /// Compacts the pool from `result` alone and returns `result` renumbered.
    pub fn finish(&mut self, result: Value) -> (r: Value)
        requires
            old(self).pool.wf(),
            valid_value(result, old(self).pool@.len()),
        ensures
            final(self).pool.wf(),
            finished(old(self).pool@, result, final(self).pool@, Ok(r)),
            valid_value(r, final(self).pool@.len()),
            !(result is Object) ==> final(self).pool@.len() == 0,
    {
        let ghost before = self.pool@;
        let mut roots: Vec<Value> = Vec::new();
        roots.push(result);
        proof {
            assert(roots@ =~= seq![result]);
            assert(all_valid(roots@, before.len()));
        }
        let remap = self.pool.compact(&roots);
        proof {
            if let Value::Object(i) = result {
                assert(roots@[0] == result);
                lemma_root_reachable(before, roots@, i);
                lemma_survivor_in_range(before, roots@, i as int);
                lemma_survivors_bounded(before, roots@, i as int);
            } else {
                lemma_no_root_handles(before, roots@, before.len() as int);
            }
        }
        match remap.apply(result) {
            Ok(v) => v,
            Err(_) => result,
        }
    }

    /// Runs `exprs` from `entry` in a new thread of the pool until its
    /// outermost frame returns, for at most `max_steps` instructions. Then
    /// compacts the pool from the result, which comes back renumbered.
    ///
    /// Fails with the first failing instruction's error, with
    /// `InvalidAddress` when the program counter leaves `exprs`, and with
    /// `OutOfSteps` when the budget runs out.
    pub fn exec(&mut self, exprs: &[Expr], entry: usize, max_steps: usize) -> (r: Result<
        Value,
        Error,
    >)
        requires
            old(self).pool.wf(),
        ensures
            final(self).pool.wf(),
            runs_from(old(self).pool@, entry, exprs@, max_steps as nat, final(self).pool@, r),
            r matches Ok(v) ==> valid_value(v, final(self).pool@.len()),
            r matches Ok(v) ==> v is Object || final(self).pool@.len() == 0,
    {
        let ghost before = self.pool@;
        let thread = self.start(entry);
        let ghost h = thread->Object_0;
        let ghost init = self.pool@;
        proof {
            assert(init.drop_last() =~= before);
        }
        let mut steps: usize = 0;
        while steps < max_steps
            invariant
                self.pool.wf(),
                thread is Object,
                before == old(self).pool@,
                h == thread->Object_0,
                h == before.len(),
                h == before.len() as usize,
                init.len() == before.len() + 1,
                init.drop_last() == before,
                thread_is(init.last(), Seq::empty(), seq![Frame { addr: entry, stack_offset: 0 }]),
                steps <= max_steps,
                h < self.pool@.len(),
                self.pool@[h as int] is Thread,
                forall|after: Seq<Object>, r: Result<Value, Error>|
                    #[trigger] runs(self.pool@, h, exprs@, (max_steps - steps) as nat, after, r)
                        ==> runs(init, h, exprs@, max_steps as nat, after, r),
            decreases max_steps - steps,
        {
            let ghost cur = self.pool@;
            let ghost fuel = (max_steps - steps) as nat;
            let addr = match self.fetch(exprs, thread) {
                Ok(addr) => addr,
                Err(e) => {
                    proof {
                        let a = Err::<usize, Error>(e);
                        assert(fetched(cur, h, exprs@, self.pool@, a));
                        assert(runs(cur, h, exprs@, fuel, self.pool@, Err(e)));
                        assert(runs(init, before.len() as usize, exprs@, max_steps as nat, self.pool@, Err(e)));
                    }
                    return Err(e);
                },
            };
            let ghost mid = self.pool@;
            let o = self.step(exprs[addr], thread);
            proof {
                assert(fetched(cur, h, exprs@, mid, Ok(addr)));
                assert(step_result(mid, h, exprs@[addr as int], self.pool@, o));
            }
            match o {
                Ok(Some(v)) => {
                    let ghost next = self.pool@;
                    let r = self.finish(v);
                    proof {
                        assert(finished(next, v, self.pool@, Ok(r)));
                        assert(runs(cur, h, exprs@, fuel, self.pool@, Ok(r)));
                        assert(runs(init, before.len() as usize, exprs@, max_steps as nat, self.pool@, Ok(r)));
                    }
                    return Ok(r);
                },
                Ok(None) => {},
                Err(e) => {
                    proof {
                        assert(runs(cur, h, exprs@, fuel, self.pool@, Err(e)));
                        assert(runs(init, before.len() as usize, exprs@, max_steps as nat, self.pool@, Err(e)));
                    }
                    return Err(e);
                },
            }
            steps = steps + 1;
            proof {
                let next = self.pool@;
                assert forall|after: Seq<Object>, r: Result<Value, Error>|
                    #[trigger] runs(next, h, exprs@, (max_steps - steps) as nat, after, r)
                        implies runs(init, h, exprs@, max_steps as nat, after, r) by {
                    assert(fetched(cur, h, exprs@, mid, Ok(addr)));
                    assert(step_result(mid, h, exprs@[addr as int], next, o));
                    assert(runs(cur, h, exprs@, fuel, after, r));
                }
            }
        }
        proof {
            assert(runs(self.pool@, h, exprs@, 0, self.pool@, Err(Error::OutOfSteps)));
            assert(runs(self.pool@, h, exprs@, (max_steps - steps) as nat, self.pool@, Err(Error::OutOfSteps)));
            assert(runs(init, before.len() as usize, exprs@, max_steps as nat, self.pool@, Err(Error::OutOfSteps)));
        }
        Err(Error::OutOfSteps)
    }
}

/// Moves the top frame of `t` to `target`.
fn jump(t: &mut Thread, target: usize)
    requires
        old(t).frames@.len() > 0,
    ensures
        final(t).stack@ == old(t).stack@,
        final(t).frames@ == jumped(old(t).frames@, target),
{
    let n = t.frames.len();
    let f = t.frames[n - 1];
    t.frames.set(n - 1, Frame { addr: target, stack_offset: f.stack_offset });
}

/// `Add` (when `add`) or `Sub` on the operand stack of `t`.
fn arith_step(t: &mut Thread, add: bool) -> (r: Result<Option<Value>, Error>)
    ensures
        final(t).frames@ == old(t).frames@,
        match arith_failure(old(t).stack@, add) {
            Some(err) => r == Err::<Option<Value>, Error>(err) && final(t).stack@ == old(t).stack@,
            None => {
                let s = old(t).stack@;
                &&& r == Ok::<Option<Value>, Error>(None)
                &&& final(t).stack@ == s.drop_last().drop_last().push(
                    Value::Integer(arith(s[s.len() - 2]->Integer_0, s.last()->Integer_0, add) as i64),
                )
            },
        },
{
    let n = t.stack.len();
    if n < 2 {
        return Err(Error::StackUnderflow);
    }
    let (a, b) = match (t.stack[n - 2], t.stack[n - 1]) {
        (Value::Integer(a), Value::Integer(b)) => (a, b),
        _ => {
            return Err(Error::TypeMismatch);
        },
    };
    let wide: i128 = if add {
        a as i128 + b as i128
    } else {
        a as i128 - b as i128
    };
    if wide < i64::MIN as i128 || wide > i64::MAX as i128 {
        return Err(Error::Overflow);
    }
    let _ = t.pop();
    let _ = t.pop();
    t.push(Value::Integer(wide as i64));
    Ok(None)
}

} // verus!
