//! The table of strings that tokens and syntax trees refer to.

use crate::intern::{distinct, interned};
use vstd::prelude::*;
use vstd::string::StringExecFns;

verus! {

/// Names a string of a [`ModuleTable`].
#[derive(Copy, Clone, Debug, PartialEq, Eq, Hash, Structural)]
pub struct StringId {
    pub index: usize,
}

/// Deduplicating storage of strings. Every string gets a small number, the
/// same whenever the same string is interned again.
#[derive(Debug)]
pub struct ModuleTable {
    strings: Vec<String>,
}

impl View for ModuleTable {
    type V = Seq<Seq<char>>;

    closed spec fn view(&self) -> Seq<Seq<char>> {
        Seq::new(self.strings@.len(), |i: int| self.strings@[i]@)
    }
}

impl ModuleTable {
    /// No string is stored twice.
    pub open spec fn wf(&self) -> bool {
        distinct(self@)
    }

    /// A table that holds no string.
    pub fn new() -> (r: ModuleTable)
        ensures
            r.wf(),
            r@ == Seq::<Seq<char>>::empty(),
    {
        let r = ModuleTable { strings: Vec::new() };
        assert(r@ =~= Seq::<Seq<char>>::empty());
        r
    }

    /// The number of strings held.
    pub fn len(&self) -> (r: usize)
        ensures
            r == self@.len(),
    {
        self.strings.len()
    }

    /// The number of `s`, if it was interned.
    pub fn get(&self, s: &str) -> (r: Option<StringId>)
        ensures
            match r {
                Some(id) => id.index < self@.len() && self@[id.index as int] == s@,
                None => !self@.contains(s@),
            },
    {
        let key = String::from_str(s);
        let n: usize = self.strings.len();
        let mut i: usize = 0;
        while i < n
            invariant
                n == self.strings@.len(),
                i <= n,
                key@ == s@,
                forall|k: int| 0 <= k < i ==> self@[k] != s@,
            decreases n - i,
        {
            if self.strings[i] == key {
                return Some(StringId { index: i });
            }
            i = i + 1;
        }
        None
    }

    /// The number of `s`, which is stored first if it is new.
    pub fn intern(&mut self, s: &str) -> (r: StringId)
        requires
            old(self).wf(),
        ensures
            final(self).wf(),
            final(self)@ == interned(old(self)@, s@),
            r.index < final(self)@.len(),
            final(self)@[r.index as int] == s@,
    {
        match self.get(s) {
            Some(id) => id,
            None => {
                let id = StringId { index: self.strings.len() };
                self.strings.push(String::from_str(s));
                assert(self@ =~= old(self)@.push(s@));
                id
            },
        }
    }

    /// The string that `id` names.
    pub fn lookup(&self, id: StringId) -> (r: &str)
        requires
            id.index < self@.len(),
        ensures
            r@ == self@[id.index as int],
    {
        self.strings[id.index].as_str()
    }

    /// The strings in the order in which they were first interned.
    pub fn values(&self) -> (r: Vec<String>)
        ensures
            r@.len() == self@.len(),
            forall|i: int| 0 <= i < r@.len() ==> r@[i]@ == self@[i],
    {
        let mut out: Vec<String> = Vec::new();
        let n: usize = self.strings.len();
        let mut i: usize = 0;
        while i < n
            invariant
                n == self.strings@.len(),
                i <= n,
                out@.len() == i,
                forall|k: int| 0 <= k < i ==> out@[k]@ == self@[k],
            decreases n - i,
        {
            out.push(self.strings[i].clone());
            i = i + 1;
        }
        out
    }
}

} // verus!
