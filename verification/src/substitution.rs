use vstd::prelude::*;

use crate::text::str_eq;
use crate::value::{cols_of, lemma_cols_of, val_of, Val, Value};

verus! {

/// Bindings in the order they were made: variable name and bound value.
pub type Bindings = Seq<(Seq<char>, Val)>;

/// The value bound to `name`: that of the first binding with this name.
pub open spec fn lookup(s: Bindings, name: Seq<char>) -> Option<Val>
    decreases s.len(),
{
    if s.len() == 0 {
        None
    } else if s[0].0 == name {
        Some(s[0].1)
    } else {
        lookup(s.drop_first(), name)
    }
}

/// No name is bound twice.
pub open spec fn distinct_names(s: Bindings) -> bool {
    forall|i: int, j: int| 0 <= i < j < s.len() ==> s[i].0 != s[j].0
}

/// `lookup` finds a binding exactly when one has the name, and then gives the
/// value of the first such binding.
pub proof fn lemma_lookup(s: Bindings, name: Seq<char>)
    ensures
        lookup(s, name) is None <==> forall|i: int| 0 <= i < s.len() ==> s[i].0 != name,
        lookup(s, name) is Some ==> exists|i: int|
            0 <= i < s.len() && s[i].0 == name && lookup(s, name) == Some(s[i].1)
                && forall|k: int| 0 <= k < i ==> s[k].0 != name,
    decreases s.len(),
{
    if s.len() > 0 {
        lemma_lookup(s.drop_first(), name);
        if s[0].0 != name {
            if lookup(s, name) is Some {
                let i = choose|i: int|
                    0 <= i < s.len() - 1 && s.drop_first()[i].0 == name && lookup(s.drop_first(), name)
                        == Some(s.drop_first()[i].1) && forall|k: int|
                        0 <= k < i ==> s.drop_first()[k].0 != name;
                assert(s[i + 1].0 == name);
                assert forall|k: int| 0 <= k < i + 1 implies s[k].0 != name by {
                    if k > 0 {
                        assert(s[k] == s.drop_first()[k - 1]);
                    }
                }
            }
            assert forall|i: int| 0 <= i < s.len() && s[i].0 == name implies lookup(s, name) is Some by {
                assert(s.drop_first()[i - 1].0 == name);
            }
        }
    }
}

/// Appending a binding for a new name keeps every earlier lookup and answers
/// the new name with the new value.
pub proof fn lemma_lookup_push(s: Bindings, b: (Seq<char>, Val), name: Seq<char>)
    requires
        lookup(s, b.0) is None,
    ensures
        lookup(s.push(b), name) == (if name == b.0 {
            Some(b.1)
        } else {
            lookup(s, name)
        }),
    decreases s.len(),
{
    if s.len() == 0 {
        assert(s.push(b).drop_first() =~= Seq::<(Seq<char>, Val)>::empty());
        assert(s.push(b)[0] == b);
        assert(lookup(Seq::<(Seq<char>, Val)>::empty(), name) is None);
    } else {
        assert(s.push(b).drop_first() =~= s.drop_first().push(b));
        assert(s.push(b)[0] == s[0]);
        assert(s[0].0 != b.0);
        lemma_lookup_push(s.drop_first(), b, name);
        if s[0].0 != name {
            assert(lookup(s.push(b), name) == lookup(s.push(b).drop_first(), name));
            assert(lookup(s, name) == lookup(s.drop_first(), name));
        }
    }
}

/// Lookups in a prefix of a substitution are kept by the whole substitution.
pub proof fn lemma_lookup_prefix(s: Bindings, t: Bindings, name: Seq<char>)
    requires
        t.len() >= s.len(),
        t.subrange(0, s.len() as int) == s,
        lookup(s, name) is Some,
    ensures
        lookup(t, name) == lookup(s, name),
    decreases s.len(),
{
    if s[0].0 != name {
        assert(t.drop_first().subrange(0, s.drop_first().len() as int) =~= s.drop_first());
        lemma_lookup_prefix(s.drop_first(), t.drop_first(), name);
    } else {
        assert(t[0] == s[0]);
    }
}

/// Variable bindings accumulated during unification, in the order in which
/// the variables were first bound.
#[derive(Debug)]
pub struct Substitution {
    bindings: Vec<(String, Value)>,
}

impl View for Substitution {
    type V = Bindings;

    closed spec fn view(&self) -> Bindings {
        cols_of(self.bindings@)
    }
}

impl Substitution {
    /// No variable is bound twice.
    pub closed spec fn wf(&self) -> bool {
        distinct_names(self@)
    }

    /// A well-formed substitution binds no variable twice.
    pub proof fn lemma_distinct(&self)
        requires
            self.wf(),
        ensures
            distinct_names(self@),
    {
    }

    pub fn new() -> (r: Self)
        ensures
            r@ == Seq::<(Seq<char>, Val)>::empty(),
            r.wf(),
    {
        let r = Substitution { bindings: Vec::new() };
        assert(r@ =~= Seq::<(Seq<char>, Val)>::empty());
        r
    }

    /// Binds a variable that is not bound yet.
    pub fn bind(&mut self, name: String, value: Value)
        requires
            old(self).wf(),
            lookup(old(self)@, name@) is None,
        ensures
            final(self).wf(),
            final(self)@ == old(self)@.push((name@, value@)),
    {
        proof {
            lemma_cols_of(self.bindings@);
            lemma_lookup(self@, name@);
        }
        let ghost n = name@;
        let ghost v = value@;
        self.bindings.push((name, value));
        proof {
            lemma_cols_of(self.bindings@);
            assert(self@ =~= old(self)@.push((n, v)));
        }
    }

    /// The value bound to `name`, if any.
    pub fn get(&self, name: &str) -> (r: Option<&Value>)
        ensures
            r matches Some(v) ==> lookup(self@, name@) == Some(v@),
            r is None ==> lookup(self@, name@) is None,
    {
        proof {
            lemma_cols_of(self.bindings@);
            lemma_lookup(self@, name@);
        }
        let mut i: usize = 0;
        while i < self.bindings.len()
            invariant
                i <= self.bindings.len(),
                self@.len() == self.bindings@.len(),
                forall|k: int|
                    0 <= k < self.bindings@.len() ==> #[trigger] self@[k] == (
                        self.bindings@[k].0@,
                        val_of(self.bindings@[k].1),
                    ),
                forall|k: int| 0 <= k < i ==> self@[k].0 != name@,
            decreases self.bindings.len() - i,
        {
            proof {
                lemma_lookup(self@, name@);
            }
            if str_eq(self.bindings[i].0.as_str(), name) {
                proof {
                    assert(self@[i as int].0 == name@);
                    assert(lookup(self@, name@) is Some);
                    let j = choose|j: int|
                        0 <= j < self@.len() && self@[j].0 == name@ && lookup(self@, name@) == Some(
                            self@[j].1,
                        ) && forall|k: int| 0 <= k < j ==> self@[k].0 != name@;
                    assert(j == i);
                }
                return Some(&self.bindings[i].1);
            }
            i = i + 1;
        }
        None
    }

    /// The bindings, in the order in which they were made.
    pub fn into_bindings(self) -> (r: Vec<(String, Value)>)
        ensures
            cols_of(r@) == self@,
    {
        self.bindings
    }

    /// The bindings, borrowed.
    pub fn bindings(&self) -> (r: &Vec<(String, Value)>)
        ensures
            cols_of(r@) == self@,
    {
        &self.bindings
    }
}

impl Clone for Substitution {
    fn clone(&self) -> (r: Self)
        ensures
            r@ == self@,
            self.wf() ==> r.wf(),
    {
        proof {
            lemma_cols_of(self.bindings@);
        }
        let mut out: Vec<(String, Value)> = Vec::new();
        let mut i: usize = 0;
        while i < self.bindings.len()
            invariant
                i <= self.bindings.len(),
                out@.len() == i,
                forall|k: int|
                    0 <= k < i ==> #[trigger] out@[k].0@ == self.bindings@[k].0@ && val_of(out@[k].1)
                        == val_of(self.bindings@[k].1),
            decreases self.bindings.len() - i,
        {
            let name = self.bindings[i].0.clone();
            let v = self.bindings[i].1.clone();
            out.push((name, v));
            i = i + 1;
        }
        proof {
            lemma_cols_of(out@);
        }
        let r = Substitution { bindings: out };
        assert(r@ =~= self@);
        r
    }
}

impl Default for Substitution {
    fn default() -> (r: Self)
        ensures
            r@ == Seq::<(Seq<char>, Val)>::empty(),
            r.wf(),
    {
        Self::new()
    }
}

} // verus!
