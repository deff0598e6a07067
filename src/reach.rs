use vstd::prelude::*;

use crate::object::{remap_value, Object};
use crate::value::Value;

verus! {

/// `v` is no handle, or a handle to one of the first `n` objects.
pub open spec fn valid_value(v: Value, n: nat) -> bool {
    match v {
        Value::Object(i) => i < n,
        _ => true,
    }
}

/// Every value of `vals` is valid in a pool of `n` objects.
pub open spec fn all_valid(vals: Seq<Value>, n: nat) -> bool {
    forall|k: int| 0 <= k < vals.len() ==> valid_value(#[trigger] vals[k], n)
}

/// Every handle held by an object of `objs` names an object of `objs`.
pub open spec fn pool_wf(objs: Seq<Object>) -> bool {
    forall|i: int| 0 <= i < objs.len() ==> all_valid(#[trigger] objs[i].values(), objs.len())
}

/// Object `i` holds a handle to object `j`.
pub open spec fn points_to(objs: Seq<Object>, i: usize, j: usize) -> bool {
    &&& i < objs.len()
    &&& objs[i as int].values().contains(Value::Object(j))
}

/// A chain of objects that starts at a root and follows handles.
pub open spec fn is_path(objs: Seq<Object>, roots: Seq<Value>, p: Seq<usize>) -> bool {
    &&& p.len() > 0
    &&& roots.contains(Value::Object(p[0]))
    &&& forall|k: int| 0 <= k < p.len() - 1 ==> points_to(objs, #[trigger] p[k], p[k + 1])
}

/// Object `j` can be reached from `roots` by following handles.
pub open spec fn reachable(objs: Seq<Object>, roots: Seq<Value>, j: usize) -> bool {
    exists|p: Seq<usize>| #[trigger] is_path(objs, roots, p) && p.last() == j
}

/// How many of the objects below index `upto` are reachable from `roots`:
/// the index that a surviving object `upto` takes in the compacted pool.
pub open spec fn survivors(objs: Seq<Object>, roots: Seq<Value>, upto: int) -> nat
    decreases upto,
{
    if upto <= 0 {
        0
    } else {
        survivors(objs, roots, upto - 1) + if reachable(objs, roots, (upto - 1) as usize) {
            1nat
        } else {
            0nat
        }
    }
}

/// The renumbering that compaction of `objs` from `roots` performs.
pub open spec fn compaction_map(objs: Seq<Object>, roots: Seq<Value>) -> Seq<Option<usize>> {
    Seq::new(
        objs.len(),
        |j: int|
            if reachable(objs, roots, j as usize) {
                Some(survivors(objs, roots, j) as usize)
            } else {
                None
            },
    )
}

/// `after` is what compacting `before` from `roots` leaves: the reachable
/// objects, in their old order, with their handles renumbered by `m`.
pub open spec fn compacted(
    before: Seq<Object>,
    roots: Seq<Value>,
    after: Seq<Object>,
    m: Seq<Option<usize>>,
) -> bool {
    &&& m == compaction_map(before, roots)
    &&& after.len() == survivors(before, roots, before.len() as int)
    &&& forall|j: int|
        0 <= j < before.len() && reachable(before, roots, j as usize)
            ==> (#[trigger] after[survivors(before, roots, j) as int]).remapped_from(before[j], m)
}

pub proof fn lemma_survivors_monotone(objs: Seq<Object>, roots: Seq<Value>, a: int, b: int)
    requires
        a <= b,
    ensures
        survivors(objs, roots, a) <= survivors(objs, roots, b),
    decreases b - a,
{
    if a < b {
        lemma_survivors_monotone(objs, roots, a, b - 1);
    }
}

/// A reachable object keeps a place below the compacted pool's length.
pub proof fn lemma_survivor_in_range(objs: Seq<Object>, roots: Seq<Value>, j: int)
    requires
        0 <= j < objs.len(),
        reachable(objs, roots, j as usize),
    ensures
        survivors(objs, roots, j) < survivors(objs, roots, objs.len() as int),
{
    lemma_survivors_monotone(objs, roots, j + 1, objs.len() as int);
}

/// In a well-formed pool whose roots are valid, only existing objects are
/// reachable.
pub proof fn lemma_reachable_in_range(objs: Seq<Object>, roots: Seq<Value>, j: usize)
    requires
        pool_wf(objs),
        all_valid(roots, objs.len()),
        reachable(objs, roots, j),
    ensures
        j < objs.len(),
{
    let p = choose|p: Seq<usize>| #[trigger] is_path(objs, roots, p) && p.last() == j;
    if p.len() == 1 {
        let k = choose|k: int| 0 <= k < roots.len() && roots[k] == Value::Object(p[0]);
        assert(valid_value(roots[k], objs.len()));
    } else {
        let a = p[p.len() - 2];
        assert(points_to(objs, p[p.len() - 2], p[p.len() - 2 + 1]));
        let vals = objs[a as int].values();
        let k = choose|k: int| 0 <= k < vals.len() && vals[k] == Value::Object(j);
        assert(all_valid(objs[a as int].values(), objs.len()));
        assert(valid_value(vals[k], objs.len()));
    }
}

/// Following a handle from a reachable object reaches another.
pub proof fn lemma_reachable_step(objs: Seq<Object>, roots: Seq<Value>, i: usize, j: usize)
    requires
        reachable(objs, roots, i),
        points_to(objs, i, j),
    ensures
        reachable(objs, roots, j),
{
    let p = choose|p: Seq<usize>| #[trigger] is_path(objs, roots, p) && p.last() == i;
    let q = p.push(j);
    assert forall|k: int| 0 <= k < q.len() - 1 implies points_to(objs, #[trigger] q[k], q[k + 1]) by {
        if k < p.len() - 1 {
            assert(points_to(objs, p[k], p[k + 1]));
        }
    }
    assert(is_path(objs, roots, q));
}

/// A root handle is reachable.
pub proof fn lemma_root_reachable(objs: Seq<Object>, roots: Seq<Value>, j: usize)
    requires
        roots.contains(Value::Object(j)),
    ensures
        reachable(objs, roots, j),
{
    let p = seq![j];
    assert(is_path(objs, roots, p));
}

/// Every root handle is marked.
pub open spec fn roots_marked(roots: Seq<Value>, marked: Seq<bool>) -> bool {
    forall|j: usize|
        #[trigger] roots.contains(Value::Object(j)) ==> j < marked.len() && marked[j as int]
}

/// Every handle held by a marked object leads to a marked object.
pub open spec fn marks_closed(objs: Seq<Object>, marked: Seq<bool>) -> bool {
    forall|i: usize, j: usize|
        i < marked.len() && #[trigger] marked[i as int] && #[trigger] points_to(objs, i, j)
            ==> j < marked.len() && marked[j as int]
}

/// A set of marks that holds every root and is closed under following
/// handles holds every reachable object.
pub proof fn lemma_closed_marks(
    objs: Seq<Object>,
    roots: Seq<Value>,
    marked: Seq<bool>,
    p: Seq<usize>,
)
    requires
        roots_marked(roots, marked),
        marks_closed(objs, marked),
        is_path(objs, roots, p),
    ensures
        p.last() < marked.len(),
        marked[p.last() as int],
    decreases p.len(),
{
    if p.len() > 1 {
        let q = p.drop_last();
        assert forall|k: int| 0 <= k < q.len() - 1 implies points_to(objs, #[trigger] q[k], q[k + 1]) by {
            assert(points_to(objs, p[k], p[k + 1]));
        }
        lemma_closed_marks(objs, roots, marked, q);
        assert(points_to(objs, p[p.len() - 2], p[p.len() - 2 + 1]));
    } else {
        assert(roots.contains(Value::Object(p[0])));
    }
}

pub proof fn lemma_survivors_bounded(objs: Seq<Object>, roots: Seq<Value>, upto: int)
    requires
        0 <= upto,
    ensures
        survivors(objs, roots, upto) <= upto,
    decreases upto,
{
    if upto > 0 {
        lemma_survivors_bounded(objs, roots, upto - 1);
    }
}

/// An object relocated by the compaction map holds only handles to objects
/// of the compacted pool.
pub proof fn lemma_relocated_valid(objs: Seq<Object>, roots: Seq<Value>, j: usize, o: Object)
    requires
        pool_wf(objs),
        j < objs.len(),
        reachable(objs, roots, j),
        o.remapped_from(objs[j as int], compaction_map(objs, roots)),
    ensures
        all_valid(o.values(), survivors(objs, roots, objs.len() as int)),
{
    let m = compaction_map(objs, roots);
    let old_vals = objs[j as int].values();
    let n = objs.len() as int;
    assert(all_valid(objs[j as int].values(), objs.len()));
    assert forall|k: int| 0 <= k < o.values().len() implies valid_value(
        #[trigger] o.values()[k],
        survivors(objs, roots, n),
    ) by {
        let v = old_vals[k];
        assert(o.values()[k] == remap_value(m, v));
        assert(valid_value(v, objs.len()));
        match v {
            Value::Object(t) => {
                assert(old_vals.contains(Value::Object(t)));
                assert(points_to(objs, j, t));
                lemma_reachable_step(objs, roots, j, t);
                lemma_survivor_in_range(objs, roots, t as int);
                lemma_survivors_bounded(objs, roots, t as int);
                assert(m[t as int] == Some(survivors(objs, roots, t as int) as usize));
            },
            _ => {},
        }
    }
}

/// With no handle among the roots nothing is reachable, and compaction
/// leaves an empty pool.
pub proof fn lemma_no_root_handles(objs: Seq<Object>, roots: Seq<Value>, upto: int)
    requires
        forall|k: int| 0 <= k < roots.len() ==> !(#[trigger] roots[k] is Object),
    ensures
        survivors(objs, roots, upto) == 0,
    decreases upto,
{
    if upto > 0 {
        lemma_no_root_handles(objs, roots, upto - 1);
        if reachable(objs, roots, (upto - 1) as usize) {
            let p = choose|p: Seq<usize>| #[trigger] is_path(objs, roots, p) && p.last() == (upto
                - 1) as usize;
            let k = choose|k: int| 0 <= k < roots.len() && roots[k] == Value::Object(p[0]);
            assert(roots[k] is Object);
        }
    }
}

/// Every place below `survivors(objs, roots, n)` belongs to a reachable
/// object below `n`.
pub proof fn lemma_survivor_preimage(objs: Seq<Object>, roots: Seq<Value>, n: int, k: int)
    requires
        0 <= k < survivors(objs, roots, n),
    ensures
        exists|j: int|
            0 <= j < n && reachable(objs, roots, j as usize) && #[trigger] survivors(objs, roots, j)
                == k,
    decreases n,
{
    if n > 0 {
        if k < survivors(objs, roots, n - 1) {
            lemma_survivor_preimage(objs, roots, n - 1, k);
        } else {
            assert(reachable(objs, roots, (n - 1) as usize));
            assert(survivors(objs, roots, n - 1) == k);
        }
    }
}

/// Place `k` of `after` holds some object of `before` that `m` moved there,
/// with its handles renumbered.
pub open spec fn moved_here(
    before: Seq<Object>,
    after: Seq<Object>,
    m: Seq<Option<usize>>,
    k: int,
) -> bool {
    exists|j: int|
        0 <= j < before.len() && #[trigger] m[j] == Some(k as usize) && after[k].remapped_from(
            before[j],
            m,
        )
}

/// Compaction is exact: every object that the roots reach keeps a place in
/// the compacted pool, no other object does, and every place of the
/// compacted pool holds one reachable object with its handles renumbered.
pub proof fn lemma_compaction_exact(
    before: Seq<Object>,
    roots: Seq<Value>,
    after: Seq<Object>,
    m: Seq<Option<usize>>,
)
    requires
        compacted(before, roots, after, m),
        pool_wf(before),
        all_valid(roots, before.len()),
    ensures
        forall|j: usize|
            #[trigger] reachable(before, roots, j) ==> j < before.len() && m[j as int] is Some
                && m[j as int]->Some_0 < after.len(),
        forall|j: int|
            0 <= j < before.len() && !reachable(before, roots, j as usize) ==> #[trigger] m[j]
                is None,
        forall|k: int| 0 <= k < after.len() ==> #[trigger] moved_here(before, after, m, k),
{
    let n = before.len() as int;
    assert forall|j: usize| #[trigger] reachable(before, roots, j) implies j < before.len()
        && m[j as int] is Some && m[j as int]->Some_0 < after.len() by {
        lemma_reachable_in_range(before, roots, j);
        lemma_survivor_in_range(before, roots, j as int);
        lemma_survivors_bounded(before, roots, j as int);
    }
    assert forall|k: int| 0 <= k < after.len() implies #[trigger] moved_here(before, after, m, k) by {
        lemma_survivor_preimage(before, roots, n, k);
        let j = choose|j: int|
            0 <= j < n && reachable(before, roots, j as usize) && #[trigger] survivors(
                before,
                roots,
                j,
            ) == k;
        lemma_survivors_bounded(before, roots, j);
        assert(m[j] == Some(k as usize));
        assert(after[k].remapped_from(before[j], m));
    }
}

pub open spec fn count_unmarked(marked: Seq<bool>) -> nat
    decreases marked.len(),
{
    if marked.len() == 0 {
        0
    } else {
        count_unmarked(marked.drop_last()) + if marked.last() {
            0nat
        } else {
            1nat
        }
    }
}

pub proof fn lemma_mark_one(marked: Seq<bool>, i: int)
    requires
        0 <= i < marked.len(),
        !marked[i],
    ensures
        count_unmarked(marked.update(i, true)) + 1 == count_unmarked(marked),
    decreases marked.len(),
{
    let u = marked.update(i, true);
    if i < marked.len() - 1 {
        assert(u.drop_last() =~= marked.drop_last().update(i, true));
        lemma_mark_one(marked.drop_last(), i);
    } else {
        assert(u.drop_last() =~= marked.drop_last());
    }
}

} // verus!
