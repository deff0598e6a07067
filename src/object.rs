use vstd::prelude::*;

use crate::function::Function;
use crate::thread::{Frame, Thread};
use crate::value::Value;

verus! {

/// A heap object of the pool.
pub enum Object {
    Function(Function),
    Thread(Thread),
}

/// The handles among `vals`, in order.
pub open spec fn handles(vals: Seq<Value>) -> Seq<usize>
    decreases vals.len(),
{
    if vals.len() == 0 {
        Seq::empty()
    } else {
        let rest = handles(vals.drop_last());
        match vals.last() {
            Value::Object(i) => rest.push(i),
            _ => rest,
        }
    }
}

/// What a value becomes under a renumbering of handles: a handle with a new
/// index takes it; every other value stays as it is.
pub open spec fn remap_value(m: Seq<Option<usize>>, v: Value) -> Value {
    match v {
        Value::Object(i) => if i < m.len() && m[i as int] is Some {
            Value::Object(m[i as int]->Some_0)
        } else {
            v
        },
        _ => v,
    }
}

/// `vals` with every handle renumbered by `m`.
pub open spec fn remap_values(m: Seq<Option<usize>>, vals: Seq<Value>) -> Seq<Value> {
    vals.map_values(|v: Value| remap_value(m, v))
}

/// `o` is a thread whose operand stack and frames are the given ones.
pub open spec fn thread_is(o: Object, stack: Seq<Value>, frames: Seq<Frame>) -> bool {
    match o {
        Object::Thread(t) => t.stack@ == stack && t.frames@ == frames,
        _ => false,
    }
}

/// `o` is a function with the given entry, arity and captured values.
pub open spec fn function_is(o: Object, entry: usize, num_params: u32, closure: Seq<Value>) -> bool {
    match o {
        Object::Function(f) => f.entry == entry && f.num_params == num_params && f.closure@
            == closure,
        _ => false,
    }
}

pub proof fn lemma_handles_contains(vals: Seq<Value>, j: usize)
    ensures
        handles(vals).contains(j) <==> vals.contains(Value::Object(j)),
    decreases vals.len(),
{
    if vals.len() > 0 {
        lemma_handles_contains(vals.drop_last(), j);
        let rest = vals.drop_last();
        if vals.contains(Value::Object(j)) {
            let k = choose|k: int| 0 <= k < vals.len() && vals[k] == Value::Object(j);
            if k < vals.len() - 1 {
                assert(rest[k] == Value::Object(j));
            }
        }
        if rest.contains(Value::Object(j)) {
            let k = choose|k: int| 0 <= k < rest.len() && rest[k] == Value::Object(j);
            assert(vals[k] == Value::Object(j));
        }
        match vals.last() {
            Value::Object(i) => {
                let h = handles(rest).push(i);
                if h.contains(j) {
                    let k = choose|k: int| 0 <= k < h.len() && h[k] == j;
                    if k < h.len() - 1 {
                        assert(handles(rest)[k] == j);
                    }
                }
                if handles(rest).contains(j) {
                    let k = choose|k: int| 0 <= k < handles(rest).len() && handles(rest)[k] == j;
                    assert(h[k] == j);
                }
                if i == j {
                    assert(h[h.len() - 1] == j);
                }
            },
            _ => {},
        }
    }
}

impl Object {
    /// The values this object holds: a function's captured values, or a
    /// thread's operand stack. Only these can hold handles.
    pub open spec fn values(&self) -> Seq<Value> {
        match self {
            Object::Function(f) => f.closure@,
            Object::Thread(t) => t.stack@,
        }
    }

    /// `self` is `old` with the handles among its values renumbered by `m`:
    /// same kind, same entry and arity, or same frames.
    pub open spec fn remapped_from(&self, old: Object, m: Seq<Option<usize>>) -> bool {
        &&& self.values() == remap_values(m, old.values())
        &&& match (old, *self) {
            (Object::Function(f), Object::Function(g)) => g.entry == f.entry && g.num_params
                == f.num_params,
            (Object::Thread(t), Object::Thread(u)) => u.frames@ == t.frames@,
            _ => false,
        }
    }

    /// The handles this object holds, in order.
    pub fn references(&self) -> (r: Vec<usize>)
        ensures
            r@ == handles(self.values()),
    {
        let vals = match self {
            Object::Function(f) => &f.closure,
            Object::Thread(t) => &t.stack,
        };
        let mut r: Vec<usize> = Vec::new();
        let mut k: usize = 0;
        while k < vals.len()
            invariant
                vals@ == self.values(),
                k <= vals@.len(),
                r@ == handles(vals@.subrange(0, k as int)),
            decreases vals@.len() - k,
        {
            assert(vals@.subrange(0, k + 1).drop_last() =~= vals@.subrange(0, k as int));
            match vals[k] {
                Value::Object(i) => r.push(i),
                _ => {},
            }
            k = k + 1;
        }
        assert(vals@.subrange(0, k as int) =~= vals@);
        r
    }

    /// The values of this object that may hold handles, open for rewriting.
    pub fn references_mut(&mut self) -> (r: &mut Vec<Value>)
        ensures
            r@ == old(self).values(),
            final(self).values() == final(r)@,
            match (*old(self), *final(self)) {
                (Object::Function(f), Object::Function(g)) => g.entry == f.entry && g.num_params
                    == f.num_params,
                (Object::Thread(t), Object::Thread(u)) => u.frames@ == t.frames@,
                _ => false,
            },
    {
        match self {
            Object::Function(f) => &mut f.closure,
            Object::Thread(t) => &mut t.stack,
        }
    }

    /// A copy of this object with each handle `i` among its values replaced
    /// by `m[i]` where that is set.
    pub fn relocated(&self, m: &Vec<Option<usize>>) -> (r: Object)
        ensures
            r.remapped_from(*self, m@),
    {
        let vals = match self {
            Object::Function(f) => &f.closure,
            Object::Thread(t) => &t.stack,
        };
        let mut out: Vec<Value> = Vec::new();
        let mut k: usize = 0;
        while k < vals.len()
            invariant
                vals@ == self.values(),
                k <= vals@.len(),
                out@ == remap_values(m@, vals@.subrange(0, k as int)),
            decreases vals@.len() - k,
        {
            let v = match vals[k] {
                Value::Object(i) => if i < m.len() {
                    match m[i] {
                        Some(j) => Value::Object(j),
                        None => vals[k],
                    }
                } else {
                    vals[k]
                },
                other => other,
            };
            out.push(v);
            k = k + 1;
            assert(out@ =~= remap_values(m@, vals@.subrange(0, k as int)));
        }
        assert(vals@.subrange(0, k as int) =~= vals@);
        match self {
            Object::Function(f) => Object::Function(
                Function { entry: f.entry, num_params: f.num_params, closure: out },
            ),
            Object::Thread(t) => {
                let mut frames: Vec<Frame> = Vec::new();
                let mut k: usize = 0;
                while k < t.frames.len()
                    invariant
                        k <= t.frames@.len(),
                        frames@ == t.frames@.subrange(0, k as int),
                    decreases t.frames@.len() - k,
                {
                    frames.push(t.frames[k]);
                    k = k + 1;
                    assert(frames@ =~= t.frames@.subrange(0, k as int));
                }
                assert(frames@ =~= t.frames@);
                Object::Thread(Thread { stack: out, frames })
            },
        }
    }
}

} // verus!
