//! Interned symbols for functor and constant names.

use vstd::prelude::*;

verus! {

/// An interned name. Equality is identity; the text lives in [`Symbols`].
#[derive(Debug, Clone, Copy, PartialEq, Eq, Structural, Hash, PartialOrd, Ord)]
pub struct Symbol(pub usize);

/// The intern table: each name once, numbered in order of first appearance.
#[derive(Debug)]
pub struct Symbols {
    names: Vec<String>,
}

impl View for Symbols {
    type V = Seq<Seq<char>>;

    closed spec fn view(&self) -> Seq<Seq<char>> {
        self.names@.map_values(|s: String| s@)
    }
}

/// No name occurs twice.
pub open spec fn distinct_names(s: Seq<Seq<char>>) -> bool {
    forall|i: int, j: int| 0 <= i < j < s.len() ==> s[i] != s[j]
}

impl Symbols {
    #[verifier::type_invariant]
    closed spec fn inv(self) -> bool {
        distinct_names(self.names@.map_values(|s: String| s@))
    }

    /// An empty table.
    pub fn new() -> (t: Symbols)
        ensures
            t@ == Seq::<Seq<char>>::empty(),
    {
        let t = Symbols { names: Vec::new() };
        assert(t@ =~= Seq::<Seq<char>>::empty());
        t
    }

    /// Names are never repeated.
    pub fn lemma_distinct(&self)
        ensures
            distinct_names(self@),
    {
        proof {
            use_type_invariant(self);
        }
    }

    /// The symbol for `name`: the existing one if the name was interned
    /// before, else a new one numbered after all others.
    pub fn intern(&mut self, name: &str) -> (s: Symbol)
        ensures
            (final(self)@, s.0 as nat) == intern_spec(old(self)@, name@),
            s.0 < final(self)@.len(),
            final(self)@[s.0 as int] == name@,
    {
        proof {
            use_type_invariant(&*self);
        }
        let owned = name.to_string();
        let mut i: usize = 0;
        while i < self.names.len()
            invariant
                i <= self.names@.len(),
                owned@ == name@,
                distinct_names(self@),
                forall|j: int| 0 <= j < i ==> self@[j] != name@,
            decreases self.names@.len() - i,
        {
            if self.names[i] == owned {
                proof {
                    assert(self@[i as int] == name@);
                    assert(self@.index_of(name@) == i) by {
                        assert forall|k: int| 0 <= k < self@.len() && self@[k] == name@ implies k == i by {
                            if k < i {
                            } else if k > i {
                                assert(self@[k] != self@[i as int]);
                            }
                        }
                    }
                }
                return Symbol(i);
            }
            i = i + 1;
        }
        proof {
            assert(!self@.contains(name@));
        }
        let ghost before = self@;
        let mut names = Vec::new();
        std::mem::swap(&mut names, &mut self.names);
        names.push(owned);
        proof {
            assert(names@.map_values(|s: String| s@) =~= before.push(name@));
        }
        self.names = names;
        Symbol(i)
    }

    /// The text of a symbol.
    pub fn name(&self, s: Symbol) -> (r: &str)
        requires
            s.0 < self@.len(),
        ensures
            r@ == self@[s.0 as int],
    {
        self.names[s.0].as_str()
    }

    /// A copy of the table.
    pub fn copy(&self) -> (t: Symbols)
        ensures
            t@ == self@,
    {
        proof {
            use_type_invariant(self);
        }
        let mut names: Vec<String> = Vec::new();
        let mut i: usize = 0;
        while i < self.names.len()
            invariant
                i <= self.names@.len(),
                names@.len() == i,
                forall|j: int| 0 <= j < i ==> names@[j]@ == self.names@[j]@,
            decreases self.names@.len() - i,
        {
            names.push(self.names[i].clone());
            i = i + 1;
        }
        proof {
            assert(names@.map_values(|s: String| s@) =~= self@);
        }
        Symbols { names }
    }

    /// The number of names interned.
    pub fn len(&self) -> (n: usize)
        ensures
            n == self@.len(),
    {
        self.names.len()
    }
}

/// The table and symbol number after interning `name` into `t`: the first
/// entry holding the name, else a new entry at the end.
pub open spec fn intern_spec(t: Seq<Seq<char>>, name: Seq<char>) -> (Seq<Seq<char>>, nat) {
    if t.contains(name) {
        (t, t.index_of(name) as nat)
    } else {
        (t.push(name), t.len())
    }
}

/// Interning then reading back gives the name; interning again gives the
/// same symbol and leaves the table as it is; names interned before keep
/// their symbols; the table stays free of repeats.
pub proof fn law_intern(t: Seq<Seq<char>>, name: Seq<char>)
    requires
        distinct_names(t),
    ensures
        intern_spec(t, name).1 < intern_spec(t, name).0.len(),
        intern_spec(t, name).0[intern_spec(t, name).1 as int] == name,
        intern_spec(intern_spec(t, name).0, name) == intern_spec(t, name),
        forall|i: int| 0 <= i < t.len() ==> #[trigger] intern_spec(t, name).0[i] == t[i],
        distinct_names(intern_spec(t, name).0),
{
    if t.contains(name) {
    } else {
        let t2 = t.push(name);
        assert(t2[t.len() as int] == name);
        assert(t2.contains(name));
        assert forall|i: int, j: int| 0 <= i < j < t2.len() implies t2[i] != t2[j] by {
            if j == t.len() {
                assert(t2[i] == t[i]);
                assert(!t.contains(name));
            }
        }
        assert(t2.index_of(name) == t.len()) by {
            assert forall|i: int| 0 <= i < t2.len() && t2[i] == name implies i == t.len() by {
                if i < t.len() {
                    assert(t[i] == name);
                }
            }
        }
    }
}

} // verus!
