//! The function dispatch table: indirect calls by index, checked against
//! each target's declared signature.

use vstd::prelude::*;
use crate::value::{TaggedVal, ValType, type_of};

verus! {

/// The declared parameter and result types of a function.
pub struct FuncType {
    pub params: Vec<ValType>,
    pub results: Vec<ValType>,
}

/// Whether `args` fit `params`: as many of them, each of the declared type.
pub open spec fn args_match(params: Seq<ValType>, args: Seq<TaggedVal>) -> bool {
    &&& args.len() == params.len()
    &&& forall|i: int| 0 <= i < args.len() ==> type_of(#[trigger] args[i]) == params[i]
}

/// Maps table indices to functions, each with its signature.
pub struct DispatchTable {
    funcs: Vec<FuncType>,
    slots: Vec<Option<usize>>,
}

impl DispatchTable {
    /// The parameter types of each function.
    pub closed spec fn params(&self) -> Seq<Seq<ValType>> {
        Seq::new(self.funcs@.len(), |f: int| self.funcs@[f].params@)
    }

    /// The result types of each function.
    pub closed spec fn results(&self) -> Seq<Seq<ValType>> {
        Seq::new(self.funcs@.len(), |f: int| self.funcs@[f].results@)
    }

    /// The function bound to each index, if any.
    pub closed spec fn slots(&self) -> Seq<Option<usize>> {
        self.slots@
    }

    /// Every bound index names a declared function.
    pub open spec fn wf(&self) -> bool {
        forall|i: int|
            0 <= i < self.slots().len() && #[trigger] self.slots()[i] is Some ==> self.slots()[i].unwrap()
                < self.params().len()
    }

    /// A table over the functions `funcs`, with no index bound.
    pub fn new(funcs: Vec<FuncType>) -> (r: DispatchTable)
        ensures
            r.wf(),
            r.slots().len() == 0,
            r.params() == Seq::new(funcs@.len(), |f: int| funcs@[f].params@),
            r.results() == Seq::new(funcs@.len(), |f: int| funcs@[f].results@),
    {
        let r = DispatchTable { funcs, slots: Vec::new() };
        assert(r.params() =~= Seq::new(r.funcs@.len(), |f: int| r.funcs@[f].params@));
        r
    }

    /// Binds index `idx` to function `func`, growing the table with unbound
    /// indices as needed.
    pub fn bind(&mut self, idx: usize, func: usize)
        requires
            old(self).wf(),
            func < old(self).params().len(),
            idx < usize::MAX,
        ensures
            final(self).wf(),
            final(self).params() == old(self).params(),
            final(self).results() == old(self).results(),
            final(self).slots().len() == if idx < old(self).slots().len() {
                old(self).slots().len() as int
            } else {
                idx + 1
            },
            forall|i: int|
                0 <= i < final(self).slots().len() ==> #[trigger] final(self).slots()[i] == if i == idx {
                    Some(func)
                } else if i < old(self).slots().len() {
                    old(self).slots()[i]
                } else {
                    None
                },
    {
        let ghost before = self.slots@;
        while self.slots.len() <= idx
            invariant
                self.funcs@ == old(self).funcs@,
                before == old(self).slots@,
                before.len() <= self.slots@.len(),
                self.slots@.len() <= if idx < before.len() { before.len() as int } else { idx + 1 },
                forall|i: int|
                    0 <= i < self.slots@.len() ==> #[trigger] self.slots@[i] == if i < before.len() {
                        before[i]
                    } else {
                        None
                    },
            decreases idx + 1 - self.slots@.len(),
        {
            self.slots.push(None);
        }
        self.slots.set(idx, Some(func));
        assert(self.params() =~= old(self).params());
        assert(self.results() =~= old(self).results());
    }

    /// The function that an indirect call through `idx` with `args` goes
    /// to; `None` where the index is unbound or out of range, or the
    /// arguments do not fit the function's parameters in number or type.
    pub fn indirect_call(&self, idx: usize, args: &[TaggedVal]) -> (r: Option<usize>)
        requires
            self.wf(),
        ensures
            r == if idx < self.slots().len() && self.slots()[idx as int] is Some && args_match(
                self.params()[self.slots()[idx as int].unwrap() as int],
                args@,
            ) {
                self.slots()[idx as int]
            } else {
                None
            },
    {
        if idx >= self.slots.len() {
            return None;
        }
        let func = match self.slots[idx] {
            Some(f) => f,
            None => return None,
        };
        let params = &self.funcs[func].params;
        assert(params@ == self.params()[func as int]);
        if args.len() != params.len() {
            return None;
        }
        let mut i: usize = 0;
        while i < args.len()
            invariant
                i <= args@.len(),
                args@.len() == params@.len(),
                idx < self.slots().len(),
                self.slots()[idx as int] == Some(func),
                func < self.params().len(),
                params@ == self.params()[func as int],
                forall|j: int| 0 <= j < i ==> type_of(#[trigger] args@[j]) == params@[j],
            decreases args@.len() - i,
        {
            if ValType::from(args[i]) != params[i] {
                assert(type_of(args@[i as int]) != params@[i as int]);
                return None;
            }
            i = i + 1;
        }
        Some(func)
    }

    /// The declared result types of function `func`.
    pub fn result_types(&self, func: usize) -> (r: Option<&Vec<ValType>>)
        ensures
            r is Some <==> func < self.results().len(),
            r is Some ==> r.unwrap()@ == self.results()[func as int],
    {
        if func < self.funcs.len() {
            Some(&self.funcs[func].results)
        } else {
            None
        }
    }
}

} // verus!
