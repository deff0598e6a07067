use vstd::prelude::*;

use crate::error::Error;
use crate::function::Function;
use crate::object::{handles, lemma_handles_contains, remap_value, thread_is, Object};
use crate::reach::{
    valid_value, all_valid, pool_wf, points_to, is_path, reachable, survivors, compaction_map, compacted, lemma_survivors_monotone, lemma_reachable_in_range, lemma_reachable_step, lemma_root_reachable, roots_marked, marks_closed, lemma_closed_marks, lemma_survivors_bounded, lemma_relocated_valid, count_unmarked, lemma_mark_one,
};
use crate::thread::Thread;
use crate::text::{decimal, int_text, push_decimal, push_int};
use crate::value::Value;

verus! {

/// The text that `to_string` gives for `v` in a pool holding `objs`.
pub open spec fn render(objs: Seq<Object>, v: Value) -> Seq<char> {
    match v {
        Value::Nil => seq!['N', 'i', 'l'],
        Value::Integer(n) => int_text(n as int),
        Value::Object(i) => match objs[i as int] {
            Object::Function(f) => "function entry:"@ + decimal(f.entry as nat) + " params:"@
                + decimal(f.num_params as nat) + " enclosing:"@ + decimal(f.closure@.len()),
            Object::Thread(_) => "thread"@,
        },
    }
}

/// A value held outside the pool and renumbered by a compaction's remap
/// renders after the compaction as it rendered before.
pub proof fn lemma_remap_preserves_text(
    before: Seq<Object>,
    roots: Seq<Value>,
    after: Seq<Object>,
    m: Seq<Option<usize>>,
    v: Value,
)
    requires
        compacted(before, roots, after, m),
        valid_value(v, before.len()),
        v is Object ==> m[v->Object_0 as int] is Some,
    ensures
        render(before, v) == render(after, remap_value(m, v)),
{
    match v {
        Value::Object(j) => {
            assert(reachable(before, roots, j));
            let o = after[survivors(before, roots, j as int) as int];
            assert(o.remapped_from(before[j as int], m));
            lemma_survivors_bounded(before, roots, j as int);
            assert(o.values().len() == before[j as int].values().len());
        },
        _ => {},
    }
}

/// The renumbering that one compaction performed, to be applied to every
/// value held outside the pool that is used afterwards.
pub struct Remap {
    mapping: Vec<Option<usize>>,
}

impl View for Remap {
    type V = Seq<Option<usize>>;

    closed spec fn view(&self) -> Seq<Option<usize>> {
        self.mapping@
    }
}

impl Remap {
    /// `v` with its handle renumbered; `InvalidHandle` for a handle whose
    /// object did not survive. Other values come back unchanged.
    pub fn apply(&self, v: Value) -> (r: Result<Value, Error>)
        ensures
            match v {
                Value::Object(i) => if i < self@.len() && self@[i as int] is Some {
                    r == Ok::<Value, Error>(remap_value(self@, v))
                } else {
                    r == Err::<Value, Error>(Error::InvalidHandle)
                },
                _ => r == Ok::<Value, Error>(v),
            },
    {
        match v {
            Value::Object(i) => {
                if i >= self.mapping.len() {
                    return Err(Error::InvalidHandle);
                }
                match self.mapping[i] {
                    Some(j) => Ok(Value::Object(j)),
                    None => Err(Error::InvalidHandle),
                }
            },
            _ => Ok(v),
        }
    }
}

/// A collection of heap objects addressed by index.
pub struct ObjectPool {
    objects: Vec<Object>,
}

impl View for ObjectPool {
    type V = Seq<Object>;

    closed spec fn view(&self) -> Seq<Object> {
        self.objects@
    }
}

impl ObjectPool {
    /// Every handle held inside the pool names an object of the pool.
    pub open spec fn wf(&self) -> bool {
        pool_wf(self@)
    }

    /// An empty pool.
    pub fn new() -> (r: ObjectPool)
        ensures
            r@ == Seq::<Object>::empty(),
            r.wf(),
    {
        ObjectPool { objects: Vec::new() }
    }

    /// The number of objects in the pool.
    pub fn len(&self) -> (r: usize)
        ensures
            r == self@.len(),
    {
        self.objects.len()
    }

    /// Appends `object` and returns a handle to it.
    pub fn allocate(&mut self, object: Object) -> (r: Value)
        ensures
            r == Value::Object(old(self)@.len() as usize),
            final(self)@ == old(self)@.push(object),
            old(self).wf() && all_valid(object.values(), old(self)@.len() + 1)
                ==> final(self).wf(),
    {
        let r = Value::Object(self.objects.len());
        self.objects.push(object);
        proof {
            let objs = self@;
            if old(self).wf() && all_valid(object.values(), old(self)@.len() + 1) {
                assert forall|i: int| 0 <= i < objs.len() implies all_valid(
                    #[trigger] objs[i].values(),
                    objs.len(),
                ) by {
                    if i < objs.len() - 1 {
                        assert(objs[i] == old(self)@[i]);
                        let vals = objs[i].values();
                        assert(all_valid(old(self)@[i].values(), old(self)@.len()));
                        assert forall|k: int| 0 <= k < vals.len() implies valid_value(
                            #[trigger] vals[k],
                            objs.len(),
                        ) by {
                            assert(valid_value(vals[k], old(self)@.len()));
                        }
                    }
                }
            }
        }
        r
    }

    /// Mark-and-compact collection. Keeps exactly the objects reachable from
    /// `roots`, in their old order, renumbers every handle inside them, and
    /// returns the renumbering for values held outside the pool.
    pub fn compact(&mut self, roots: &Vec<Value>) -> (r: Remap)
        requires
            old(self).wf(),
            all_valid(roots@, old(self)@.len()),
        ensures
            compacted(old(self)@, roots@, final(self)@, r@),
            final(self).wf(),
            forall|i: int, j: int|
                0 <= i < j < r@.len() && #[trigger] r@[i] is Some && #[trigger] r@[j] is Some
                    ==> r@[i]->Some_0 < r@[j]->Some_0,
    {
        let ghost objs = self@;
        let ghost rs = roots@;
        let n = self.objects.len();
        let mut marked: Vec<bool> = Vec::new();
        while marked.len() < n
            invariant
                marked@.len() <= n,
                forall|k: int| 0 <= k < marked@.len() ==> !#[trigger] marked@[k],
            decreases n - marked@.len(),
        {
            marked.push(false);
        }
        let mut work: Vec<usize> = Vec::new();
        let mut k: usize = 0;
        while k < roots.len()
            invariant
                k <= roots@.len(),
                rs == roots@,
                forall|w: int| 0 <= w < work@.len() ==> rs.contains(Value::Object(#[trigger] work@[w])),
                forall|q: int|
                    0 <= q < k && (#[trigger] rs[q]) is Object ==> work@.contains(rs[q]->Object_0),
            decreases roots@.len() - k,
        {
            let ghost before = work@;
            match roots[k] {
                Value::Object(i) => {
                    work.push(i);
                    assert(work@[work@.len() - 1] == i);
                },
                _ => {},
            }
            proof {
                assert forall|q: int|
                    0 <= q < k + 1 && (#[trigger] rs[q]) is Object implies work@.contains(rs[q]->Object_0) by {
                    let j = rs[q]->Object_0;
                    if q < k {
                        let w = choose|w: int| 0 <= w < before.len() && before[w] == j;
                        assert(work@[w] == j);
                    }
                }
            }
            k = k + 1;
        }
        proof {
            assert forall|w: int| 0 <= w < work@.len() implies #[trigger] work@[w] < n && reachable(objs, rs, work@[w]) by {
                lemma_root_reachable(objs, rs, work@[w]);
                lemma_reachable_in_range(objs, rs, work@[w]);
            }
        }
        while work.len() > 0
            invariant
                self@ == objs,
                rs == roots@,
                pool_wf(objs),
                all_valid(rs, objs.len()),
                n == objs.len(),
                marked@.len() == n,
                forall|w: int| 0 <= w < work@.len() ==> #[trigger] work@[w] < n && reachable(objs, rs, work@[w]),
                forall|j: int| 0 <= j < n && #[trigger] marked@[j] ==> reachable(objs, rs, j as usize),
                forall|j: usize|
                    #[trigger] rs.contains(Value::Object(j)) ==> j < n && (marked@[j as int] || work@.contains(j)),
                forall|i: usize, j: usize|
                    i < n && #[trigger] marked@[i as int] && #[trigger] points_to(objs, i, j)
                        ==> j < n && (marked@[j as int] || work@.contains(j)),
            decreases count_unmarked(marked@), work@.len(),
        {
            let ghost old_work = work@;
            let ghost old_marked = marked@;
            let i = match work.pop() {
                Some(i) => i,
                None => 0,
            };
            assert(i == old_work.last());
            assert(work@ == old_work.drop_last());
            if !marked[i] {
                marked.set(i, true);
                let mut refs = self.objects[i].references();
                proof {
                    lemma_mark_one(old_marked, i as int);
                }
                work.append(&mut refs);
                proof {
                    let vals = objs[i as int].values();
                    assert(objs[i as int] == self@[i as int]);
                    assert forall|j: usize| points_to(objs, i, j) implies work@.contains(j) by {
                        lemma_handles_contains(vals, j);
                        let w = choose|w: int| 0 <= w < handles(vals).len() && handles(vals)[w] == j;
                        assert(work@[old_work.len() - 1 + w] == j);
                    }
                    assert forall|w: int| 0 <= w < work@.len() implies #[trigger] work@[w] < n && reachable(objs, rs, work@[w]) by {
                        if w >= old_work.len() - 1 {
                            let j = work@[w];
                            assert(handles(vals)[w - (old_work.len() - 1)] == j);
                            assert(handles(vals).contains(j));
                            lemma_handles_contains(vals, j);
                            assert(points_to(objs, i, j));
                            lemma_reachable_step(objs, rs, i, j);
                            lemma_reachable_in_range(objs, rs, j);
                        } else {
                            assert(work@[w] == old_work[w]);
                        }
                    }
                    assert forall|j: usize| old_work.contains(j) && j != i implies work@.contains(j) by {
                        let w = choose|w: int| 0 <= w < old_work.len() && old_work[w] == j;
                        assert(w != old_work.len() - 1);
                        assert(work@[w] == j);
                    }
                }
            } else {
                proof {
                    assert forall|j: usize| old_work.contains(j) && j != i implies work@.contains(j) by {
                        let w = choose|w: int| 0 <= w < old_work.len() && old_work[w] == j;
                        assert(w != old_work.len() - 1);
                        assert(work@[w] == j);
                    }
                }
            }
        }
        proof {
            assert(roots_marked(rs, marked@));
            assert(marks_closed(objs, marked@));
            assert forall|j: int| 0 <= j < n implies #[trigger] marked@[j] == reachable(objs, rs, j as usize) by {
                if reachable(objs, rs, j as usize) {
                    let p = choose|p: Seq<usize>| #[trigger] is_path(objs, rs, p) && p.last() == j as usize;
                    lemma_closed_marks(objs, rs, marked@, p);
                }
            }
        }
        let ghost m = compaction_map(objs, rs);
        let mut mapping: Vec<Option<usize>> = Vec::new();
        let mut count: usize = 0;
        let mut j: usize = 0;
        while j < n
            invariant
                j <= n,
                n == objs.len(),
                marked@.len() == n,
                m == compaction_map(objs, rs),
                forall|q: int| 0 <= q < n ==> #[trigger] marked@[q] == reachable(objs, rs, q as usize),
                count == survivors(objs, rs, j as int),
                mapping@ == m.subrange(0, j as int),
            decreases n - j,
        {
            proof {
                lemma_survivors_bounded(objs, rs, j as int);
            }
            if marked[j] {
                mapping.push(Some(count));
                count = count + 1;
            } else {
                mapping.push(None);
            }
            j = j + 1;
            assert(mapping@ =~= m.subrange(0, j as int));
        }
        assert(mapping@ =~= m);
        let mut objects: Vec<Object> = Vec::new();
        let mut j: usize = 0;
        while j < n
            invariant
                j <= n,
                self@ == objs,
                pool_wf(objs),
                n == objs.len(),
                marked@.len() == n,
                mapping@ == m,
                m == compaction_map(objs, rs),
                forall|q: int| 0 <= q < n ==> #[trigger] marked@[q] == reachable(objs, rs, q as usize),
                objects@.len() == survivors(objs, rs, j as int),
                forall|q: int|
                    0 <= q < j && reachable(objs, rs, q as usize) ==> (#[trigger] objects@[survivors(
                        objs,
                        rs,
                        q,
                    ) as int]).remapped_from(objs[q], m),
                forall|q: int|
                    0 <= q < objects@.len() ==> all_valid(
                        #[trigger] objects@[q].values(),
                        survivors(objs, rs, n as int),
                    ),
            decreases n - j,
        {
            if marked[j] {
                let o = self.objects[j].relocated(&mapping);
                proof {
                    lemma_relocated_valid(objs, rs, j, o);
                }
                let ghost before = objects@;
                objects.push(o);
                proof {
                    assert forall|q: int|
                        0 <= q < j && reachable(objs, rs, q as usize) implies objects@[survivors(
                        objs,
                        rs,
                        q,
                    ) as int] == before[survivors(objs, rs, q) as int] by {
                        lemma_survivors_monotone(objs, rs, q + 1, j as int);
                    }
                }
            }
            j = j + 1;
        }
        self.objects = objects;
        proof {
            assert forall|a: int, b: int|
                0 <= a < b < m.len() && #[trigger] m[a] is Some && #[trigger] m[b] is Some
                    implies m[a]->Some_0 < m[b]->Some_0 by {
                lemma_survivors_monotone(objs, rs, a + 1, b);
                lemma_survivors_bounded(objs, rs, a);
                lemma_survivors_bounded(objs, rs, b);
            }
        }
        Remap { mapping }
    }

    /// A readable rendering of `value`: `Nil`, an integer in decimal, or a
    /// summary of the object that a handle names.
    pub fn to_string(&self, value: &Value) -> (r: String)
        requires
            valid_value(*value, self@.len()),
        ensures
            r@ == render(self@, *value),
    {
        match value {
            Value::Nil => {
                let r = String::from_str("Nil");
                proof {
                    reveal_strlit("Nil");
                }
                r
            },
            Value::Integer(n) => {
                let mut r = String::new();
                push_int(&mut r, *n);
                r
            },
            Value::Object(i) => match &self.objects[*i] {
                Object::Function(f) => {
                    let mut r = String::from_str("function entry:");
                    push_decimal(&mut r, f.entry as u64);
                    r.append(" params:");
                    push_decimal(&mut r, f.num_params as u64);
                    r.append(" enclosing:");
                    push_decimal(&mut r, f.closure.len() as u64);
                    r
                },
                Object::Thread(_) => String::from_str("thread"),
            },
        }
    }

    /// Lends out thread `h`, leaving a thread with no stack and no frames in
    /// its place until `put_thread` brings it back.
    pub fn take_thread(&mut self, h: usize) -> (r: Thread)
        requires
            h < old(self)@.len(),
            old(self)@[h as int] is Thread,
        ensures
            r == old(self)@[h as int]->Thread_0,
            final(self)@.len() == old(self)@.len(),
            forall|j: int| 0 <= j < old(self)@.len() && j != h ==> final(self)@[j] == old(self)@[j],
            thread_is(final(self)@[h as int], Seq::empty(), Seq::empty()),
            old(self).wf() ==> final(self).wf(),
    {
        let mut t = Thread { stack: Vec::new(), frames: Vec::new() };
        let ghost placeholder = t;
        let mut slot = Object::Thread(t);
        std::mem::swap(&mut slot, &mut self.objects[h]);
        proof {
            assert(self@[h as int] == Object::Thread(placeholder));
            assert forall|i: int| 0 <= i < self@.len() && old(self).wf() implies all_valid(
                #[trigger] self@[i].values(),
                self@.len(),
            ) by {
                if i != h {
                    assert(self@[i] == old(self)@[i]);
                }
            }
        }
        match slot {
            Object::Thread(t) => t,
            Object::Function(_) => Thread { stack: Vec::new(), frames: Vec::new() },
        }
    }

    /// Puts `t` in place of thread `h`.
    pub fn put_thread(&mut self, h: usize, t: Thread)
        requires
            h < old(self)@.len(),
        ensures
            final(self)@ == old(self)@.update(h as int, Object::Thread(t)),
            old(self).wf() && all_valid(t.stack@, old(self)@.len()) ==> final(self).wf(),
    {
        self.objects.set(h, Object::Thread(t));
        proof {
            assert forall|i: int|
                0 <= i < self@.len() && old(self).wf() && all_valid(t.stack@, old(self)@.len())
                    implies all_valid(#[trigger] self@[i].values(), self@.len()) by {
                if i != h {
                    assert(self@[i] == old(self)@[i]);
                }
            }
        }
    }

    /// The function that `value` names, or `InvalidHandle` when it names no
    /// object of the pool, or `TypeMismatch` when it is no handle or names a
    /// thread.
    pub fn function(&self, value: Value) -> (r: Result<&Function, Error>)
        ensures
            match value {
                Value::Object(i) => if i >= self@.len() {
                    r == Err::<&Function, Error>(Error::InvalidHandle)
                } else {
                    match self@[i as int] {
                        Object::Function(f) => r == Ok::<&Function, Error>(&f),
                        _ => r == Err::<&Function, Error>(Error::TypeMismatch),
                    }
                },
                _ => r == Err::<&Function, Error>(Error::TypeMismatch),
            },
    {
        match value {
            Value::Object(i) => {
                if i >= self.objects.len() {
                    return Err(Error::InvalidHandle);
                }
                match &self.objects[i] {
                    Object::Function(f) => Ok(f),
                    _ => Err(Error::TypeMismatch),
                }
            },
            _ => Err(Error::TypeMismatch),
        }
    }

    /// The thread that `value` names, with the same failures as `function`.
    pub fn thread(&self, value: Value) -> (r: Result<&Thread, Error>)
        ensures
            match value {
                Value::Object(i) => if i >= self@.len() {
                    r == Err::<&Thread, Error>(Error::InvalidHandle)
                } else {
                    match self@[i as int] {
                        Object::Thread(t) => r == Ok::<&Thread, Error>(&t),
                        _ => r == Err::<&Thread, Error>(Error::TypeMismatch),
                    }
                },
                _ => r == Err::<&Thread, Error>(Error::TypeMismatch),
            },
    {
        match value {
            Value::Object(i) => {
                if i >= self.objects.len() {
                    return Err(Error::InvalidHandle);
                }
                match &self.objects[i] {
                    Object::Thread(t) => Ok(t),
                    _ => Err(Error::TypeMismatch),
                }
            },
            _ => Err(Error::TypeMismatch),
        }
    }
}

} // verus!
