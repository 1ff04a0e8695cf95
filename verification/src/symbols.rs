//! The table that stands behind [`Symbol`]: it gives every name one
//! number.

use vstd::prelude::*;
use crate::feature::Symbol;

verus! {

/// What interning `name` does to the names `known`: a name that is there
/// keeps its number and nothing changes; one that is not gets the next
/// number.
pub open spec fn spec_intern_name(known: Seq<Seq<char>>, name: Seq<char>) -> (Seq<Seq<char>>, int) {
    if known.contains(name) {
        (known, known.index_of(name))
    } else {
        (known.push(name), known.len() as int)
    }
}

/// Interning a name leaves it in the table under the number given, keeps
/// every other name under its number, and keeps the table free of
/// repetitions; interning it again gives the same number and changes
/// nothing.
pub proof fn lemma_intern_name(known: Seq<Seq<char>>, name: Seq<char>)
    requires
        known.no_duplicates(),
    ensures
        ({
            let (after, n) = spec_intern_name(known, name);
            &&& after.no_duplicates()
            &&& 0 <= n < after.len()
            &&& after[n] == name
            &&& forall|i: int| 0 <= i < known.len() ==> after[i] == known[i]
            &&& spec_intern_name(after, name) == (after, n)
        }),
{
    let (after, n) = spec_intern_name(known, name);
    if known.contains(name) {
        assert(0 <= n < known.len() && known[n] == name);
    } else {
        assert forall|i: int, j: int| 0 <= i < j < after.len() implies after[i] != after[j] by {
            if j == known.len() {
                assert(known[i] == after[i]);
                assert(known.contains(after[i]));
            }
        }
        assert(after[n] == name);
        assert(after.contains(name));
        let k = after.index_of(name);
        assert(after[k] == name);
        if k != n {
            assert(known[k] == name);
        }
    }
}

/// The names behind the symbols: the name of `Symbol { id }` is the name at
/// place `id`.
#[derive(Debug)]
pub struct SymbolTable {
    names: Vec<String>,
}

impl View for SymbolTable {
    type V = Seq<Seq<char>>;

    closed spec fn view(&self) -> Seq<Seq<char>> {
        self.names@.map_values(|s: String| s@)
    }
}

impl SymbolTable {
    /// No name is held twice.
    pub closed spec fn wf(&self) -> bool {
        self@.no_duplicates()
    }

    /// An empty table.
    pub fn new() -> (r: SymbolTable)
        ensures
            r.wf(),
            r@ == Seq::<Seq<char>>::empty(),
    {
        let r = SymbolTable { names: Vec::new() };
        assert(r@ =~= Seq::<Seq<char>>::empty());
        r
    }

    /// The number of names held.
    pub fn len(&self) -> (n: usize)
        ensures
            n == self@.len(),
    {
        self.names.len()
    }

    /// The symbol of `name`, if the table holds it.
    pub fn lookup(&self, name: &String) -> (r: Option<Symbol>)
        requires
            self.wf(),
        ensures
            match r {
                Some(s) => self@.contains(name@) && s.id == self@.index_of(name@),
                None => !self@.contains(name@),
            },
    {
        let n = self.names.len();
        let mut i: usize = 0;
        while i < n
            invariant
                n == self.names@.len(),
                n == self@.len(),
                i <= n,
                self.wf(),
                forall|k: int| 0 <= k < i ==> self@[k] != name@,
            decreases n - i,
        {
            if self.names[i] == *name {
                assert(self@[i as int] == name@);
                assert(self@.contains(name@));
                let ghost k = self@.index_of(name@);
                assert(self@[k] == name@);
                assert(k == i);
                return Some(Symbol { id: i as u64 });
            }
            i = i + 1;
        }
        None
    }

    /// The symbol of `name`, which is put into the table if it is not yet
    /// there. The same name always gets the same symbol.
    pub fn intern(&mut self, name: String) -> (s: Symbol)
        requires
            old(self).wf(),
        ensures
            final(self).wf(),
            (final(self)@, s.id as int) == spec_intern_name(old(self)@, name@),
            s.id < final(self)@.len(),
            final(self)@[s.id as int] == name@,
    {
        proof {
            lemma_intern_name(self@, name@);
        }
        match self.lookup(&name) {
            Some(s) => s,
            None => {
                let s = Symbol { id: self.names.len() as u64 };
                self.names.push(name);
                assert(self@ =~= old(self)@.push(name@));
                s
            },
        }
    }

    /// The name of `symbol`, if the table gave it out.
    pub fn name_of(&self, symbol: Symbol) -> (r: Option<&String>)
        ensures
            match r {
                Some(name) => symbol.id < self@.len() && name@ == self@[symbol.id as int],
                None => symbol.id >= self@.len(),
            },
    {
        if symbol.id < self.names.len() as u64 {
            Some(&self.names[symbol.id as usize])
        } else {
            None
        }
    }
}

} // verus!
