use vstd::prelude::*;

use crate::value::{Val, Value};

verus! {

/// A pattern term that values are unified against.
#[derive(Debug)]
pub enum Term {
    /// Must equal the value.
    Literal(Value),
    /// Binds to the value, or checks it against an earlier binding.
    Variable(String),
    /// Open record pattern: each field must match, further fields of the value are ignored.
    Record(Vec<(String, Term)>),
    /// String decomposition pattern, such as `&stem.rs`.
    StringPattern(Vec<StringPatternPart>),
}

/// One piece of a string decomposition pattern.
#[derive(Debug)]
pub enum StringPatternPart {
    Literal(String),
    Variable(String),
}

impl Clone for StringPatternPart {
    fn clone(&self) -> (r: Self)
        ensures
            part_view(r) == part_view(*self),
    {
        match self {
            StringPatternPart::Literal(l) => StringPatternPart::Literal(l.clone()),
            StringPatternPart::Variable(n) => StringPatternPart::Variable(n.clone()),
        }
    }
}

impl PartialEq for StringPatternPart {
    fn eq(&self, other: &StringPatternPart) -> (r: bool) {
        match (self, other) {
            (StringPatternPart::Literal(a), StringPatternPart::Literal(b)) => *a == *b,
            (StringPatternPart::Variable(a), StringPatternPart::Variable(b)) => *a == *b,
            _ => false,
        }
    }
}

impl vstd::std_specs::cmp::PartialEqSpecImpl for StringPatternPart {
    open spec fn obeys_eq_spec() -> bool {
        true
    }

    open spec fn eq_spec(&self, other: &StringPatternPart) -> bool {
        part_view(*self) == part_view(*other)
    }
}

/// What a [`StringPatternPart`] says.
pub enum PartV {
    Lit(Seq<char>),
    Var(Seq<char>),
}

/// What a [`Term`] says.
pub enum Pat {
    Lit(Val),
    Var(Seq<char>),
    Rec(Seq<(Seq<char>, Pat)>),
    Str(Seq<PartV>),
}

pub open spec fn part_view(p: StringPatternPart) -> PartV {
    match p {
        StringPatternPart::Literal(l) => PartV::Lit(l@),
        StringPatternPart::Variable(n) => PartV::Var(n@),
    }
}

pub open spec fn parts_view(ps: Seq<StringPatternPart>) -> Seq<PartV> {
    ps.map_values(|p: StringPatternPart| part_view(p))
}

pub open spec fn term_view(t: Term) -> Pat
    decreases t,
{
    match t {
        Term::Literal(v) => Pat::Lit(v@),
        Term::Variable(n) => Pat::Var(n@),
        Term::Record(fields) => Pat::Rec(fields_view(fields@)),
        Term::StringPattern(parts) => Pat::Str(parts_view(parts@)),
    }
}

pub open spec fn fields_view(fields: Seq<(String, Term)>) -> Seq<(Seq<char>, Pat)>
    decreases fields,
{
    if fields.len() == 0 {
        Seq::empty()
    } else {
        fields_view(fields.drop_last()).push((fields.last().0@, term_view(fields.last().1)))
    }
}

pub proof fn lemma_fields_view(fields: Seq<(String, Term)>)
    ensures
        fields_view(fields).len() == fields.len(),
        forall|i: int|
            0 <= i < fields.len() ==> #[trigger] fields_view(fields)[i] == (
                fields[i].0@,
                term_view(fields[i].1),
            ),
    decreases fields.len(),
{
    if fields.len() > 0 {
        lemma_fields_view(fields.drop_last());
    }
}

/// Variable names of a term in the order they occur, depth first and left to
/// right, repeats included.
pub open spec fn occurrences(t: Term) -> Seq<Seq<char>>
    decreases t,
{
    match t {
        Term::Literal(_) => Seq::empty(),
        Term::Variable(name) => seq![name@],
        Term::Record(fields) => field_occurrences(fields@),
        Term::StringPattern(parts) => part_occurrences(parts@),
    }
}

pub open spec fn field_occurrences(fields: Seq<(String, Term)>) -> Seq<Seq<char>>
    decreases fields,
{
    if fields.len() == 0 {
        Seq::empty()
    } else {
        field_occurrences(fields.drop_last()) + occurrences(fields.last().1)
    }
}

pub open spec fn part_occurrences(parts: Seq<StringPatternPart>) -> Seq<Seq<char>>
    decreases parts.len(),
{
    if parts.len() == 0 {
        Seq::empty()
    } else {
        part_occurrences(parts.drop_last()) + match parts.last() {
            StringPatternPart::Variable(name) => seq![name@],
            StringPatternPart::Literal(_) => Seq::empty(),
        }
    }
}

/// `acc` followed by the names of `xs` that are new, each once, in order of
/// first occurrence.
pub open spec fn add_new(acc: Seq<Seq<char>>, xs: Seq<Seq<char>>) -> Seq<Seq<char>>
    decreases xs.len(),
{
    if xs.len() == 0 {
        acc
    } else {
        let a = add_new(acc, xs.drop_last());
        if a.contains(xs.last()) {
            a
        } else {
            a.push(xs.last())
        }
    }
}

pub open spec fn no_duplicates(s: Seq<Seq<char>>) -> bool {
    forall|i: int, j: int| 0 <= i < j < s.len() ==> s[i] != s[j]
}

pub open spec fn names_of(v: Seq<String>) -> Seq<Seq<char>> {
    v.map_values(|s: String| s@)
}

pub proof fn lemma_add_new_concat(acc: Seq<Seq<char>>, xs: Seq<Seq<char>>, ys: Seq<Seq<char>>)
    ensures
        add_new(acc, xs + ys) == add_new(add_new(acc, xs), ys),
    decreases ys.len(),
{
    if ys.len() == 0 {
        assert(xs + ys =~= xs);
    } else {
        assert((xs + ys).drop_last() =~= xs + ys.drop_last());
        assert((xs + ys).last() == ys.last());
        lemma_add_new_concat(acc, xs, ys.drop_last());
    }
}

pub proof fn lemma_add_new_props(acc: Seq<Seq<char>>, xs: Seq<Seq<char>>)
    requires
        no_duplicates(acc),
    ensures
        no_duplicates(add_new(acc, xs)),
        forall|n: Seq<char>| #[trigger] add_new(acc, xs).contains(n) <==> (acc.contains(n) || xs.contains(n)),
        add_new(acc, xs).subrange(0, acc.len() as int) == acc,
        add_new(acc, xs).len() >= acc.len(),
    decreases xs.len(),
{
    if xs.len() > 0 {
        lemma_add_new_props(acc, xs.drop_last());
        let a = add_new(acc, xs.drop_last());
        assert forall|n: Seq<char>| #[trigger] xs.contains(n) <==> (xs.drop_last().contains(n) || n == xs.last()) by {
            if xs.contains(n) {
                let i = choose|i: int| 0 <= i < xs.len() && xs[i] == n;
                if i < xs.len() - 1 {
                    assert(xs.drop_last()[i] == n);
                }
            }
            if xs.drop_last().contains(n) {
                let i = choose|i: int| 0 <= i < xs.len() - 1 && xs.drop_last()[i] == n;
                assert(xs[i] == n);
            }
            if n == xs.last() {
                assert(xs[xs.len() - 1] == n);
            }
        }
        if !a.contains(xs.last()) {
            let b = a.push(xs.last());
            assert forall|n: Seq<char>| #[trigger] b.contains(n) <==> (a.contains(n) || n == xs.last()) by {
                if b.contains(n) {
                    let i = choose|i: int| 0 <= i < b.len() && b[i] == n;
                    if i < a.len() {
                        assert(a[i] == n);
                    }
                }
                if a.contains(n) {
                    let i = choose|i: int| 0 <= i < a.len() && a[i] == n;
                    assert(b[i] == n);
                }
                if n == xs.last() {
                    assert(b[a.len() as int] == n);
                }
            }
            assert(b.subrange(0, acc.len() as int) =~= a.subrange(0, acc.len() as int));
        }
    }
}

/// Whether `v` holds a string equal to `name`.
pub fn contains_name(v: &Vec<String>, name: &String) -> (r: bool)
    ensures
        r == names_of(v@).contains(name@),
{
    let mut i: usize = 0;
    while i < v.len()
        invariant
            i <= v.len(),
            forall|k: int| 0 <= k < i ==> v@[k]@ != name@,
        decreases v.len() - i,
    {
        if v[i] == *name {
            assert(names_of(v@)[i as int] == name@);
            return true;
        }
        i = i + 1;
    }
    assert forall|k: int| 0 <= k < names_of(v@).len() implies names_of(v@)[k] != name@ by {
        assert(names_of(v@)[k] == v@[k]@);
    }
    false
}

/// Appends `name` to `out` unless it is there already.
fn push_new(out: &mut Vec<String>, name: &String)
    ensures
        names_of(final(out)@) == (if names_of(old(out)@).contains(name@) {
            names_of(old(out)@)
        } else {
            names_of(old(out)@).push(name@)
        }),
{
    if !contains_name(out, name) {
        out.push(name.clone());
        assert(names_of(out@) =~= names_of(old(out)@).push(name@));
    }
}

pub(crate) fn collect_vars(term: &Term, out: &mut Vec<String>)
    ensures
        names_of(final(out)@) == add_new(names_of(old(out)@), occurrences(*term)),
    decreases term,
{
    match term {
        Term::Literal(_) => {
            assert(occurrences(*term) =~= Seq::<Seq<char>>::empty());
            assert(add_new(names_of(out@), Seq::empty()) == names_of(out@));
        },
        Term::Variable(name) => {
            assert(occurrences(*term) =~= seq![name@]);
            assert(seq![name@].drop_last() =~= Seq::<Seq<char>>::empty());
            assert(add_new(names_of(out@), Seq::empty()) == names_of(out@));
            push_new(out, name);
        },
        Term::Record(fields) => {
            let ghost start = names_of(out@);
            let mut i: usize = 0;
            while i < fields.len()
                invariant
                    *term == Term::Record(*fields),
                    i <= fields.len(),
                    names_of(out@) == add_new(start, field_occurrences(fields@.subrange(0, i as int))),
                decreases fields.len() - i,
            {
                proof {
                    assert(decreases_to!(*term => (*term)->Record_0));
                    assert(decreases_to!(*fields => fields@));
                    assert(decreases_to!(fields@ => fields@[i as int]));
                    assert(decreases_to!(fields@[i as int] => fields@[i as int].1));
                }
                let ghost before = names_of(out@);
                collect_vars(&fields[i].1, out);
                proof {
                    let pre = fields@.subrange(0, i as int);
                    let post = fields@.subrange(0, i + 1);
                    assert(post.drop_last() =~= pre);
                    assert(post.last() == fields@[i as int]);
                    lemma_add_new_concat(start, field_occurrences(pre), occurrences(fields@[i as int].1));
                }
                i = i + 1;
            }
            assert(fields@.subrange(0, fields@.len() as int) =~= fields@);
        },
        Term::StringPattern(parts) => {
            let ghost start = names_of(out@);
            let mut i: usize = 0;
            while i < parts.len()
                invariant
                    *term == Term::StringPattern(*parts),
                    i <= parts.len(),
                    names_of(out@) == add_new(start, part_occurrences(parts@.subrange(0, i as int))),
                decreases parts.len() - i,
            {
                let ghost pre = parts@.subrange(0, i as int);
                let ghost post = parts@.subrange(0, i + 1);
                proof {
                    assert(post.drop_last() =~= pre);
                    assert(post.last() == parts@[i as int]);
                }
                match &parts[i] {
                    StringPatternPart::Variable(name) => {
                        proof {
                            let before = names_of(out@);
                            assert(part_occurrences(post) == part_occurrences(pre) + seq![name@]);
                            lemma_add_new_concat(start, part_occurrences(pre), seq![name@]);
                            assert(seq![name@].drop_last() =~= Seq::<Seq<char>>::empty());
                            assert(add_new(before, Seq::empty()) == before);
                        }
                        push_new(out, name);
                        assert(names_of(out@) == add_new(start, part_occurrences(post)));
                    },
                    StringPatternPart::Literal(_) => {
                        assert(part_occurrences(post) =~= part_occurrences(pre));
                    },
                }
                i = i + 1;
            }
            assert(parts@.subrange(0, parts@.len() as int) =~= parts@);
        },
    }
}

/// All variable names of a term in declaration order (depth first, left to
/// right), each name once.
pub fn vars_in_term(term: &Term) -> (r: Vec<String>)
    ensures
        names_of(r@) == add_new(Seq::empty(), occurrences(*term)),
        no_duplicates(names_of(r@)),
        forall|n: Seq<char>| #[trigger] names_of(r@).contains(n) <==> occurrences(*term).contains(n),
{
    let mut out: Vec<String> = Vec::new();
    assert(names_of(out@) =~= Seq::<Seq<char>>::empty());
    collect_vars(term, &mut out);
    proof {
        lemma_add_new_props(Seq::empty(), occurrences(*term));
    }
    out
}

} // verus!

verus! {

/// The names of a record pattern's fields: the first field's, then the rest's.
pub proof fn lemma_field_occurrences_front(fields: Seq<(String, Term)>)
    requires
        fields.len() > 0,
    ensures
        field_occurrences(fields) == occurrences(fields[0].1) + field_occurrences(fields.drop_first()),
    decreases fields.len(),
{
    if fields.len() == 1 {
        assert(fields.drop_first() =~= Seq::<(String, Term)>::empty());
        assert(fields.drop_last() =~= Seq::<(String, Term)>::empty());
        assert(field_occurrences(fields.drop_last()).len() == 0);
        assert(fields.last() == fields[0]);
        assert(field_occurrences(fields) =~= occurrences(fields[0].1) + Seq::<Seq<char>>::empty());
    } else {
        let init = fields.drop_last();
        lemma_field_occurrences_front(init);
        assert(init[0] == fields[0]);
        assert(init.drop_first() =~= fields.drop_first().drop_last());
        assert(fields.drop_first().last() == fields.last());
        assert(field_occurrences(fields) =~= occurrences(fields[0].1) + field_occurrences(fields.drop_first()));
    }
}

pub open spec fn part_names(p: StringPatternPart) -> Seq<Seq<char>> {
    match p {
        StringPatternPart::Variable(name) => seq![name@],
        StringPatternPart::Literal(_) => Seq::empty(),
    }
}

/// The variable names of a string pattern: the first part's, then the rest's.
pub proof fn lemma_part_occurrences_front(parts: Seq<StringPatternPart>)
    requires
        parts.len() > 0,
    ensures
        part_occurrences(parts) == part_names(parts[0]) + part_occurrences(parts.drop_first()),
    decreases parts.len(),
{
    if parts.len() == 1 {
        assert(parts.drop_first() =~= Seq::<StringPatternPart>::empty());
        assert(parts.drop_last() =~= Seq::<StringPatternPart>::empty());
        assert(part_occurrences(parts.drop_last()).len() == 0);
        assert(parts.last() == parts[0]);
        assert(part_occurrences(parts) =~= part_names(parts[0]) + Seq::<Seq<char>>::empty());
    } else {
        let init = parts.drop_last();
        lemma_part_occurrences_front(init);
        assert(init[0] == parts[0]);
        assert(init.drop_first() =~= parts.drop_first().drop_last());
        assert(parts.drop_first().last() == parts.last());
        assert(part_occurrences(parts) == part_occurrences(init) + part_names(parts.last()));
        assert(part_occurrences(parts.drop_first()) == part_occurrences(init.drop_first()) + part_names(
            parts.last(),
        ));
        assert(part_occurrences(parts) =~= part_names(parts[0]) + part_occurrences(parts.drop_first()));
    }
}

pub proof fn lemma_contains_concat(a: Seq<Seq<char>>, b: Seq<Seq<char>>, x: Seq<char>)
    ensures
        (a + b).contains(x) <==> (a.contains(x) || b.contains(x)),
{
    if a.contains(x) {
        let i = choose|i: int| 0 <= i < a.len() && a[i] == x;
        assert((a + b)[i] == x);
    }
    if b.contains(x) {
        let i = choose|i: int| 0 <= i < b.len() && b[i] == x;
        assert((a + b)[a.len() + i] == x);
    }
    if (a + b).contains(x) {
        let i = choose|i: int| 0 <= i < (a + b).len() && (a + b)[i] == x;
        if i < a.len() {
            assert(a[i] == x);
        } else {
            assert(b[i - a.len()] == x);
        }
    }
}

} // verus!
