use vstd::prelude::*;

use crate::value::Value;

verus! {

/// A closure: where its code starts, how many arguments it takes, and the
/// values it captured when it was made.
pub struct Function {
    pub entry: usize,
    pub num_params: u32,
    pub closure: Vec<Value>,
}

impl Function {
    /// A copy of this function with its own vector of captured values.
    pub fn duplicate(&self) -> (r: Function)
        ensures
            r.entry == self.entry,
            r.num_params == self.num_params,
            r.closure@ == self.closure@,
    {
        let mut closure: Vec<Value> = Vec::new();
        let mut k: usize = 0;
        while k < self.closure.len()
            invariant
                k <= self.closure@.len(),
                closure@ == self.closure@.subrange(0, k as int),
            decreases self.closure@.len() - k,
        {
            closure.push(self.closure[k]);
            k = k + 1;
            assert(closure@ =~= self.closure@.subrange(0, k as int));
        }
        assert(closure@ =~= self.closure@);
        Function { entry: self.entry, num_params: self.num_params, closure }
    }
}

} // verus!
