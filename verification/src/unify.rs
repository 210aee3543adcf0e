use vstd::prelude::*;

use crate::substitution::{lemma_lookup, lookup, Bindings, Substitution};
use crate::term::{field_occurrences, names_of, occurrences, part_occurrences, StringPatternPart, Term};
use crate::text::{chars_of, string_from};
use crate::value::{cols_of, lemma_cols_of, real_free, val_eq, val_of, Val, Value};

verus! {

/// A structural problem: the pattern cannot apply to the data at all.
#[derive(Debug)]
pub enum UnifyError {
    /// A record pattern names a field that the record does not have;
    /// `available` lists the record's columns in order.
    MissingField { field: String, available: Vec<String> },
    /// A string decomposition pattern met a value that is not a string.
    NotAString { found: Value },
}

/// What a [`UnifyError`] says.
pub enum UnifyErr {
    MissingField(Seq<char>, Seq<Seq<char>>),
    NotAString(Val),
}

impl View for UnifyError {
    type V = UnifyErr;

    open spec fn view(&self) -> UnifyErr {
        match self {
            UnifyError::MissingField { field, available } => UnifyErr::MissingField(
                field@,
                names_of(available@),
            ),
            UnifyError::NotAString { found } => UnifyErr::NotAString(found@),
        }
    }
}

pub open spec fn result_view(r: Result<bool, UnifyError>) -> Result<bool, UnifyErr> {
    match r {
        Ok(b) => Ok(b),
        Err(e) => Err(e@),
    }
}

/// The outcome of unification and the bindings after it.
pub type Outcome = (Result<bool, UnifyErr>, Bindings);

/// The value of the last column named `name`: the one a record lookup finds.
pub open spec fn record_get(cols: Seq<(Seq<char>, Val)>, name: Seq<char>) -> Option<Val>
    decreases cols.len(),
{
    if cols.len() == 0 {
        None
    } else if cols.last().0 == name {
        Some(cols.last().1)
    } else {
        record_get(cols.drop_last(), name)
    }
}

pub open spec fn column_names(cols: Seq<(Seq<char>, Val)>) -> Seq<Seq<char>> {
    cols.map_values(|c: (Seq<char>, Val)| c.0)
}

/// A variable meets a value: an unbound variable is bound to it, a bound one
/// must be bound to an equal value.
#[verifier::opaque]
pub open spec fn bind_check(name: Seq<char>, v: Val, s: Bindings) -> Outcome {
    match lookup(s, name) {
        Some(b) => (Ok(val_eq(b, v)), s),
        None => (Ok(true), s.push((name, v))),
    }
}

/// Whether `lit` occurs in `t` at position `p`.
pub open spec fn occurs_at(t: Seq<char>, lit: Seq<char>, p: int) -> bool {
    0 <= p && p + lit.len() <= t.len() && t.subrange(p, p + lit.len()) == lit
}

/// The leftmost position at which `lit` occurs in `t`.
#[verifier::opaque]
pub open spec fn find(t: Seq<char>, lit: Seq<char>) -> Option<int> {
    if exists|p: int| occurs_at(t, lit, p) {
        Some(choose|p: int| occurs_at(t, lit, p) && forall|q: int| 0 <= q < p ==> !occurs_at(t, lit, q))
    } else {
        None
    }
}

/// The text of the first literal part, if there is one.
pub open spec fn first_literal(parts: Seq<StringPatternPart>) -> Option<Seq<char>>
    decreases parts.len(),
{
    if parts.len() == 0 {
        None
    } else {
        match parts[0] {
            StringPatternPart::Literal(lit) => Some(lit@),
            StringPatternPart::Variable(_) => first_literal(parts.drop_first()),
        }
    }
}

/// Unification of a pattern with a value, starting from the bindings `s`.
///
/// A literal must equal the value. A variable binds or checks. A record pattern
/// needs a record and matches its fields in order; a field the record lacks is
/// a structural error. A string pattern needs a string (anything else is a
/// structural error) and decomposes it with [`unify_parts`].
pub open spec fn unify_spec(p: Term, v: Val, s: Bindings) -> Outcome
    decreases p,
{
    match p {
        Term::Literal(lit) => (Ok(val_eq(lit@, v)), s),
        Term::Variable(name) => bind_check(name@, v, s),
        Term::Record(fields) => match v {
            Val::Record(cols) => unify_fields(fields@, cols, s),
            _ => (Ok(false), s),
        },
        Term::StringPattern(parts) => match v {
            Val::Str(t) => unify_parts(parts@, t, s),
            _ => (Err(UnifyErr::NotAString(v)), s),
        },
    }
}

/// Fields of a record pattern, matched in order against the columns `cols`;
/// the first field that does not match ends the match.
pub open spec fn unify_fields(fields: Seq<(String, Term)>, cols: Seq<(Seq<char>, Val)>, s: Bindings) -> Outcome
    decreases fields,
{
    if fields.len() == 0 {
        (Ok(true), s)
    } else {
        match record_get(cols, fields[0].0@) {
            None => (Err(UnifyErr::MissingField(fields[0].0@, column_names(cols))), s),
            Some(fv) => {
                let (r, s1) = unify_spec(fields[0].1, fv, s);
                if r == Ok::<bool, UnifyErr>(true) {
                    unify_fields(fields.drop_first(), cols, s1)
                } else {
                    (r, s1)
                }
            },
        }
    }
}

/// String decomposition. Literals must match exactly, left to right. A
/// variable followed, eventually, by a literal captures the text up to the
/// leftmost occurrence of that literal; a last variable captures the rest;
/// a variable followed by variables alone captures the empty string.
#[verifier::opaque]
pub open spec fn unify_parts(parts: Seq<StringPatternPart>, t: Seq<char>, s: Bindings) -> Outcome
    decreases parts.len(),
{
    if parts.len() == 0 {
        (Ok(t.len() == 0), s)
    } else {
        match parts[0] {
            StringPatternPart::Literal(lit) => {
                if lit@.len() <= t.len() && t.take(lit@.len() as int) == lit@ {
                    unify_parts(parts.drop_first(), t.skip(lit@.len() as int), s)
                } else {
                    (Ok(false), s)
                }
            },
            StringPatternPart::Variable(name) => {
                if parts.len() == 1 {
                    bind_check(name@, Val::Str(t), s)
                } else {
                    match first_literal(parts.drop_first()) {
                        Some(lit) => match find(t, lit) {
                            Some(pos) => {
                                let (r, s1) = bind_check(name@, Val::Str(t.take(pos)), s);
                                if r == Ok::<bool, UnifyErr>(true) {
                                    unify_parts(parts.drop_first(), t.skip(pos), s1)
                                } else {
                                    (r, s1)
                                }
                            },
                            None => (Ok(false), s),
                        },
                        None => {
                            let (r, s1) = bind_check(name@, Val::Str(Seq::empty()), s);
                            if r == Ok::<bool, UnifyErr>(true) {
                                unify_parts(parts.drop_first(), t, s1)
                            } else {
                                (r, s1)
                            }
                        },
                    }
                }
            },
        }
    }
}

} // verus!

verus! {

/// The record's value in the last column named `name`.
pub(crate) fn get_column<'a>(cols: &'a Vec<(String, Value)>, name: &String) -> (r: Option<&'a Value>)
    ensures
        r matches Some(v) ==> record_get(cols_of(cols@), name@) == Some(v@),
        r is None ==> record_get(cols_of(cols@), name@) is None,
{
    proof {
        lemma_cols_of(cols@);
    }
    let ghost c = cols_of(cols@);
    let mut i: usize = cols.len();
    assert(c.subrange(0, i as int) =~= c);
    while i > 0
        invariant
            i <= cols.len(),
            c == cols_of(cols@),
            c.len() == cols@.len(),
            forall|k: int| 0 <= k < cols@.len() ==> #[trigger] c[k] == (cols@[k].0@, val_of(cols@[k].1)),
            record_get(c, name@) == record_get(c.subrange(0, i as int), name@),
        decreases i,
    {
        let ghost pre = c.subrange(0, i as int);
        assert(pre.last() == c[i - 1]);
        assert(pre.drop_last() =~= c.subrange(0, i - 1));
        if cols[i - 1].0 == *name {
            return Some(&cols[i - 1].1);
        }
        i = i - 1;
    }
    None
}

/// The names of a record's columns, in order.
fn column_names_of(cols: &Vec<(String, Value)>) -> (r: Vec<String>)
    ensures
        names_of(r@) == column_names(cols_of(cols@)),
{
    proof {
        lemma_cols_of(cols@);
    }
    let mut out: Vec<String> = Vec::new();
    let mut i: usize = 0;
    while i < cols.len()
        invariant
            i <= cols.len(),
            out@.len() == i,
            cols_of(cols@).len() == cols@.len(),
            forall|k: int| 0 <= k < cols@.len() ==> #[trigger] cols_of(cols@)[k] == (cols@[k].0@, val_of(cols@[k].1)),
            forall|k: int| 0 <= k < i ==> #[trigger] out@[k]@ == cols@[k].0@,
        decreases cols.len() - i,
    {
        out.push(cols[i].0.clone());
        i = i + 1;
    }
    assert(names_of(out@) =~= column_names(cols_of(cols@)));
    out
}

/// Binds `name` to `v`, or checks `v` against the value already bound to it.
fn bind_or_check(name: &String, v: Value, sub: &mut Substitution) -> (r: bool)
    requires
        old(sub).wf(),
    ensures
        final(sub).wf(),
        (Ok::<bool, UnifyErr>(r), final(sub)@) == bind_check(name@, v@, old(sub)@),
{
    reveal(bind_check);
    let same = match sub.get(name.as_str()) {
        Some(bound) => Some(bound.equals(&v)),
        None => None,
    };
    match same {
        Some(eq) => eq,
        None => {
            sub.bind(name.clone(), v);
            true
        },
    }
}

/// The index of the first literal among `parts[from..]`.
fn first_literal_from(parts: &[StringPatternPart], from: usize) -> (r: Option<usize>)
    requires
        from <= parts.len(),
    ensures
        match r {
            Some(k) => from <= k < parts.len() && parts@[k as int] is Literal
                && first_literal(parts@.skip(from as int)) == Some(parts@[k as int]->Literal_0@),
            None => first_literal(parts@.skip(from as int)) is None,
        },
    decreases parts.len() - from,
{
    if from == parts.len() {
        return None;
    }
    assert(parts@.skip(from as int)[0] == parts@[from as int]);
    assert(parts@.skip(from as int).drop_first() =~= parts@.skip(from + 1));
    match &parts[from] {
        StringPatternPart::Literal(_) => Some(from),
        StringPatternPart::Variable(_) => first_literal_from(parts, from + 1),
    }
}

/// Whether `lit` occurs in `t` at position `p`.
fn occurs_at_exec(t: &Vec<char>, lit: &Vec<char>, p: usize) -> (r: bool)
    requires
        p <= t.len(),
    ensures
        r == occurs_at(t@, lit@, p as int),
{
    if lit.len() > t.len() - p {
        return false;
    }
    let mut i: usize = 0;
    while i < lit.len()
        invariant
            p + lit.len() <= t.len(),
            i <= lit.len(),
            forall|k: int| 0 <= k < i ==> t@[p + k] == lit@[k],
        decreases lit.len() - i,
    {
        if t[p + i] != lit[i] {
            assert(t@.subrange(p as int, p + lit.len())[i as int] != lit@[i as int]);
            return false;
        }
        i = i + 1;
    }
    assert(t@.subrange(p as int, p + lit.len()) =~= lit@);
    true
}

/// The leftmost position of `lit` in `t[from..]`, counted from `from`.
fn find_exec(t: &Vec<char>, from: usize, lit: &Vec<char>) -> (r: Option<usize>)
    requires
        from <= t.len(),
    ensures
        match r {
            Some(p) => find(t@.skip(from as int), lit@) == Some(p as int) && occurs_at(
                t@.skip(from as int),
                lit@,
                p as int,
            ),
            None => find(t@.skip(from as int), lit@) is None,
        },
{
    reveal(find);
    let ghost u = t@.skip(from as int);
    let mut p: usize = from;
    loop
        invariant
            from <= p <= t.len(),
            u == t@.skip(from as int),
            forall|q: int| 0 <= q < p - from ==> !occurs_at(u, lit@, q),
        ensures
            p == t.len(),
            forall|q: int| 0 <= q <= p - from ==> !occurs_at(u, lit@, q),
        decreases t.len() - p,
    {
        let here = occurs_at_exec(t, lit, p);
        proof {
            if occurs_at(t@, lit@, p as int) {
                assert(u.subrange(p - from, p - from + lit@.len()) =~= t@.subrange(p as int, p + lit@.len()));
            }
            if occurs_at(u, lit@, p - from) {
                assert(u.subrange(p - from, p - from + lit@.len()) =~= t@.subrange(p as int, p + lit@.len()));
            }
        }
        if here {
            proof {
                reveal(find);
                let w = (p - from) as int;
                assert(occurs_at(u, lit@, w));
                let c = choose|q: int| occurs_at(u, lit@, q) && forall|r: int| 0 <= r < q ==> !occurs_at(u, lit@, r);
                assert(c == w);
            }
            return Some(p - from);
        }
        if p == t.len() {
            break;
        }
        p = p + 1;
    }
    assert forall|q: int| !occurs_at(u, lit@, q) by {
        if 0 <= q && q + lit@.len() <= u.len() {
            assert(q <= p - from);
        }
    }
    None
}

} // verus!

verus! {

pub proof fn lemma_parts_empty(parts: Seq<StringPatternPart>, u: Seq<char>, s: Bindings)
    requires
        parts.len() == 0,
    ensures
        unify_parts(parts, u, s) == (Ok::<bool, UnifyErr>(u.len() == 0), s),
{
    reveal(unify_parts);
}

pub proof fn lemma_parts_literal(parts: Seq<StringPatternPart>, u: Seq<char>, s: Bindings)
    requires
        parts.len() > 0,
        parts[0] is Literal,
    ensures
        unify_parts(parts, u, s) == (if occurs_at(u, parts[0]->Literal_0@, 0) {
            unify_parts(parts.drop_first(), u.skip(parts[0]->Literal_0@.len() as int), s)
        } else {
            (Ok::<bool, UnifyErr>(false), s)
        }),
{
    reveal(unify_parts);
    let lit = parts[0]->Literal_0@;
    if lit.len() <= u.len() {
        assert(u.take(lit.len() as int) =~= u.subrange(0, lit.len() as int));
    }
}

pub proof fn lemma_parts_last_variable(parts: Seq<StringPatternPart>, u: Seq<char>, s: Bindings)
    requires
        parts.len() == 1,
        parts[0] is Variable,
    ensures
        unify_parts(parts, u, s) == bind_check(parts[0]->Variable_0@, Val::Str(u), s),
{
    reveal(unify_parts);
}

pub proof fn lemma_parts_variable_found(
    parts: Seq<StringPatternPart>,
    u: Seq<char>,
    s: Bindings,
    lit: Seq<char>,
    pos: int,
)
    requires
        parts.len() > 1,
        parts[0] is Variable,
        first_literal(parts.drop_first()) == Some(lit),
        find(u, lit) == Some(pos),
    ensures
        unify_parts(parts, u, s) == ({
            let (r, s1) = bind_check(parts[0]->Variable_0@, Val::Str(u.take(pos)), s);
            if r == Ok::<bool, UnifyErr>(true) {
                unify_parts(parts.drop_first(), u.skip(pos), s1)
            } else {
                (r, s1)
            }
        }),
{
    reveal(unify_parts);
}

pub proof fn lemma_parts_variable_missing(
    parts: Seq<StringPatternPart>,
    u: Seq<char>,
    s: Bindings,
    lit: Seq<char>,
)
    requires
        parts.len() > 1,
        parts[0] is Variable,
        first_literal(parts.drop_first()) == Some(lit),
        find(u, lit) is None,
    ensures
        unify_parts(parts, u, s) == (Ok::<bool, UnifyErr>(false), s),
{
    reveal(unify_parts);
}

pub proof fn lemma_parts_variable_no_literal(parts: Seq<StringPatternPart>, u: Seq<char>, s: Bindings)
    requires
        parts.len() > 1,
        parts[0] is Variable,
        first_literal(parts.drop_first()) is None,
    ensures
        unify_parts(parts, u, s) == ({
            let (r, s1) = bind_check(parts[0]->Variable_0@, Val::Str(Seq::empty()), s);
            if r == Ok::<bool, UnifyErr>(true) {
                unify_parts(parts.drop_first(), u, s1)
            } else {
                (r, s1)
            }
        }),
{
    reveal(unify_parts);
}

/// String decomposition of `t[pos..]` by `parts[k..]` (see [`unify_parts`]).
fn unify_parts_from(
    parts: &[StringPatternPart],
    k: usize,
    t: &Vec<char>,
    pos: usize,
    sub: &mut Substitution,
) -> (r: bool)
    requires
        k <= parts.len(),
        pos <= t.len(),
        old(sub).wf(),
    ensures
        final(sub).wf(),
        (Ok::<bool, UnifyErr>(r), final(sub)@) == unify_parts(
            parts@.skip(k as int),
            t@.skip(pos as int),
            old(sub)@,
        ),
    decreases parts.len() - k, 1nat,
{
    if k == parts.len() {
        proof {
            lemma_parts_empty(parts@.skip(k as int), t@.skip(pos as int), sub@);
        }
        return pos == t.len();
    }
    match &parts[k] {
        StringPatternPart::Literal(_) => literal_part(parts, k, t, pos, sub),
        StringPatternPart::Variable(_) => variable_part(parts, k, t, pos, sub),
    }
}

/// [`unify_parts_from`] where `parts[k]` is a literal.
fn literal_part(
    parts: &[StringPatternPart],
    k: usize,
    t: &Vec<char>,
    pos: usize,
    sub: &mut Substitution,
) -> (r: bool)
    requires
        k < parts.len(),
        parts@[k as int] is Literal,
        pos <= t.len(),
        old(sub).wf(),
    ensures
        final(sub).wf(),
        (Ok::<bool, UnifyErr>(r), final(sub)@) == unify_parts(
            parts@.skip(k as int),
            t@.skip(pos as int),
            old(sub)@,
        ),
    decreases parts.len() - k, 0nat,
{
    let ghost ps = parts@.skip(k as int);
    let ghost u = t@.skip(pos as int);
    assert(ps[0] == parts@[k as int]);
    assert(ps.drop_first() =~= parts@.skip(k + 1));
    let lit = match &parts[k] {
        StringPatternPart::Literal(l) => l,
        StringPatternPart::Variable(l) => l,
    };
    let lc = chars_of(lit.as_str());
    proof {
        lemma_parts_literal(ps, u, sub@);
        if lit@.len() <= u.len() {
            assert(u.subrange(0, lit@.len() as int) =~= t@.subrange(pos as int, pos + lit@.len()));
        }
    }
    if lc.len() <= t.len() - pos && occurs_at_exec(t, &lc, pos) {
        assert(u.skip(lit@.len() as int) =~= t@.skip(pos + lc.len()));
        unify_parts_from(parts, k + 1, t, pos + lc.len(), sub)
    } else {
        false
    }
}

/// [`unify_parts_from`] where `parts[k]` is a variable.
fn variable_part(
    parts: &[StringPatternPart],
    k: usize,
    t: &Vec<char>,
    pos: usize,
    sub: &mut Substitution,
) -> (r: bool)
    requires
        k < parts.len(),
        parts@[k as int] is Variable,
        pos <= t.len(),
        old(sub).wf(),
    ensures
        final(sub).wf(),
        (Ok::<bool, UnifyErr>(r), final(sub)@) == unify_parts(
            parts@.skip(k as int),
            t@.skip(pos as int),
            old(sub)@,
        ),
    decreases parts.len() - k, 0nat,
{
    let ghost ps = parts@.skip(k as int);
    let ghost u = t@.skip(pos as int);
    assert(ps[0] == parts@[k as int]);
    assert(ps.drop_first() =~= parts@.skip(k + 1));
    let name = match &parts[k] {
        StringPatternPart::Literal(l) => l,
        StringPatternPart::Variable(l) => l,
    };
    if k + 1 == parts.len() {
        proof {
            lemma_parts_last_variable(ps, u, sub@);
        }
        let captured = string_from(t, pos, t.len());
        assert(captured@ =~= u);
        return bind_or_check(name, Value::Str(captured), sub);
    }
    match first_literal_from(parts, k + 1) {
        Some(li) => {
            let lit = match &parts[li] {
                StringPatternPart::Literal(l) => l,
                StringPatternPart::Variable(l) => l,
            };
            let lc = chars_of(lit.as_str());
            match find_exec(t, pos, &lc) {
                Some(p) => {
                    proof {
                        lemma_parts_variable_found(ps, u, sub@, lc@, p as int);
                    }
                    let captured = string_from(t, pos, pos + p);
                    assert(captured@ =~= u.take(p as int));
                    assert(u.skip(p as int) =~= t@.skip(pos + p));
                    if !bind_or_check(name, Value::Str(captured), sub) {
                        return false;
                    }
                    unify_parts_from(parts, k + 1, t, pos + p, sub)
                },
                None => {
                    proof {
                        lemma_parts_variable_missing(ps, u, sub@, lc@);
                    }
                    false
                },
            }
        },
        None => {
            proof {
                lemma_parts_variable_no_literal(ps, u, sub@);
            }
            let empty = String::new();
            if !bind_or_check(name, Value::Str(empty), sub) {
                return false;
            }
            unify_parts_from(parts, k + 1, t, pos, sub)
        },
    }
}

/// String decomposition of `s` by a string pattern, accumulating bindings in
/// `sub` (see [`unify_parts`]). It never reports a structural error.
pub fn unify_string_pattern(parts: &[StringPatternPart], s: &str, sub: &mut Substitution) -> (r: Result<
    bool,
    UnifyError,
>)
    requires
        old(sub).wf(),
    ensures
        final(sub).wf(),
        r is Ok,
        (result_view(r), final(sub)@) == unify_parts(parts@, s@, old(sub)@),
{
    let t = chars_of(s);
    assert(parts@.skip(0) =~= parts@);
    assert(t@.skip(0) =~= t@);
    Ok(unify_parts_from(parts, 0, &t, 0, sub))
}

/// Unifies a pattern with a value, accumulating bindings in `sub`.
///
/// `Ok(true)`: the pattern matches. `Ok(false)`: it could apply but this value
/// does not match. `Err`: a structural problem, the pattern cannot apply to
/// this data. After `Ok(false)` or `Err`, `sub` may hold partial bindings.
pub fn unify(pattern: &Term, value: &Value, sub: &mut Substitution) -> (r: Result<bool, UnifyError>)
    requires
        old(sub).wf(),
    ensures
        final(sub).wf(),
        (result_view(r), final(sub)@) == unify_spec(*pattern, value@, old(sub)@),
    decreases pattern,
{
    match pattern {
        Term::Literal(lit) => Ok(lit.equals(value)),
        Term::Variable(name) => Ok(bind_or_check(name, value.clone(), sub)),
        Term::Record(fields) => {
            let record = match value {
                Value::Record(cols) => cols,
                _ => {
                    return Ok(false);
                },
            };
            let ghost cols = cols_of(record@);
            let ghost s0 = sub@;
            assert(value@ == Val::Record(cols));
            assert(fields@.skip(0) =~= fields@);
            let mut i: usize = 0;
            while i < fields.len()
                invariant
                    *pattern == Term::Record(*fields),
                    cols == cols_of(record@),
                    value@ == Val::Record(cols),
                    s0 == old(sub)@,
                    i <= fields.len(),
                    sub.wf(),
                    unify_fields(fields@, cols, s0) == unify_fields(fields@.skip(i as int), cols, sub@),
                decreases fields.len() - i,
            {
                let ghost rest = fields@.skip(i as int);
                assert(rest[0] == fields@[i as int]);
                assert(rest.drop_first() =~= fields@.skip(i + 1));
                match get_column(record, &fields[i].0) {
                    Some(field_value) => {
                        proof {
                            assert(decreases_to!(*pattern => (*pattern)->Record_0));
                            assert(decreases_to!(*fields => fields@));
                            assert(decreases_to!(fields@ => fields@[i as int]));
                            assert(decreases_to!(fields@[i as int] => fields@[i as int].1));
                        }
                        match unify(&fields[i].1, field_value, sub) {
                            Ok(true) => {},
                            Ok(false) => {
                                return Ok(false);
                            },
                            Err(e) => {
                                return Err(e);
                            },
                        }
                    },
                    None => {
                        let available = column_names_of(record);
                        return Err(UnifyError::MissingField { field: fields[i].0.clone(), available });
                    },
                }
                i = i + 1;
            }
            Ok(true)
        },
        Term::StringPattern(parts) => {
            match value {
                Value::Str(s) => unify_string_pattern(parts.as_slice(), s.as_str(), sub),
                _ => Err(UnifyError::NotAString { found: value.clone() }),
            }
        },
    }
}

} // verus!

verus! {

/// `b` begins with the bindings `a`: unification only ever adds bindings.
pub open spec fn extends(a: Bindings, b: Bindings) -> bool {
    a.len() <= b.len() && b.subrange(0, a.len() as int) == a
}

pub proof fn lemma_extends_trans(a: Bindings, b: Bindings, c: Bindings)
    requires
        extends(a, b),
        extends(b, c),
    ensures
        extends(a, c),
{
    assert(c.subrange(0, a.len() as int) =~= b.subrange(0, a.len() as int));
}

proof fn lemma_bind_check_extends(name: Seq<char>, v: Val, s: Bindings)
    ensures
        extends(s, bind_check(name, v, s).1),
{
    reveal(bind_check);
    assert(s.push((name, v)).subrange(0, s.len() as int) =~= s);
    assert(s.subrange(0, s.len() as int) =~= s);
}

/// Unification keeps every binding it started with, in place: the bindings
/// after it begin with the bindings before it.
pub proof fn lemma_unify_extends(p: Term, v: Val, s: Bindings)
    ensures
        extends(s, unify_spec(p, v, s).1),
    decreases p,
{
    assert(s.subrange(0, s.len() as int) =~= s);
    match p {
        Term::Literal(_) => {},
        Term::Variable(name) => {
            lemma_bind_check_extends(name@, v, s);
        },
        Term::Record(fields) => match v {
            Val::Record(cols) => {
                lemma_fields_extends(fields@, cols, s);
            },
            _ => {},
        },
        Term::StringPattern(parts) => match v {
            Val::Str(t) => {
                lemma_parts_extends(parts@, t, s);
            },
            _ => {},
        },
    }
}

proof fn lemma_fields_extends(fields: Seq<(String, Term)>, cols: Seq<(Seq<char>, Val)>, s: Bindings)
    ensures
        extends(s, unify_fields(fields, cols, s).1),
    decreases fields,
{
    assert(s.subrange(0, s.len() as int) =~= s);
    if fields.len() > 0 {
        match record_get(cols, fields[0].0@) {
            None => {},
            Some(fv) => {
                assert(decreases_to!(fields => fields[0].1));
                lemma_unify_extends(fields[0].1, fv, s);
                let (r, s1) = unify_spec(fields[0].1, fv, s);
                if r == Ok::<bool, UnifyErr>(true) {
                    lemma_fields_extends(fields.drop_first(), cols, s1);
                    lemma_extends_trans(s, s1, unify_fields(fields.drop_first(), cols, s1).1);
                }
            },
        }
    }
}

/// String decomposition keeps every binding it started with.
pub proof fn lemma_parts_extends(parts: Seq<StringPatternPart>, t: Seq<char>, s: Bindings)
    ensures
        extends(s, unify_parts(parts, t, s).1),
    decreases parts.len(),
{
    reveal(unify_parts);
    assert(s.subrange(0, s.len() as int) =~= s);
    if parts.len() > 0 {
        match parts[0] {
            StringPatternPart::Literal(lit) => {
                if lit@.len() <= t.len() && t.take(lit@.len() as int) == lit@ {
                    lemma_parts_extends(parts.drop_first(), t.skip(lit@.len() as int), s);
                }
            },
            StringPatternPart::Variable(name) => {
                if parts.len() == 1 {
                    lemma_bind_check_extends(name@, Val::Str(t), s);
                } else {
                    match first_literal(parts.drop_first()) {
                        Some(lit) => match find(t, lit) {
                            Some(pos) => {
                                lemma_bind_check_extends(name@, Val::Str(t.take(pos)), s);
                                let (r, s1) = bind_check(name@, Val::Str(t.take(pos)), s);
                                if r == Ok::<bool, UnifyErr>(true) {
                                    lemma_parts_extends(parts.drop_first(), t.skip(pos), s1);
                                    lemma_extends_trans(s, s1, unify_parts(parts.drop_first(), t.skip(pos), s1).1);
                                }
                            },
                            None => {},
                        },
                        None => {
                            lemma_bind_check_extends(name@, Val::Str(Seq::empty()), s);
                            let (r, s1) = bind_check(name@, Val::Str(Seq::empty()), s);
                            if r == Ok::<bool, UnifyErr>(true) {
                                lemma_parts_extends(parts.drop_first(), t, s1);
                                lemma_extends_trans(s, s1, unify_parts(parts.drop_first(), t, s1).1);
                            }
                        },
                    }
                }
            },
        }
    }
}

} // verus!

verus! {

proof fn lemma_bind_check_stable(name: Seq<char>, v: Val, s: Bindings, t: Bindings)
    requires
        bind_check(name, v, s).0 == Ok::<bool, UnifyErr>(true),
        extends(bind_check(name, v, s).1, t),
    ensures
        bind_check(name, v, t) == (Ok::<bool, UnifyErr>(true), t),
        lookup(t, name) matches Some(b) && val_eq(b, v),
{
    reveal(bind_check);
    let s1 = bind_check(name, v, s).1;
    match lookup(s, name) {
        Some(b) => {},
        None => {
            crate::substitution::lemma_lookup_push(s, (name, v), name);
            crate::value::lemma_val_eq_reflexive(v);
        },
    }
    crate::substitution::lemma_lookup_prefix(s1, t, name);
}

/// A match stays a match once more bindings are made: when `p` matches `v`
/// from `s`, it matches `v` under any bindings that begin with the bindings
/// the match produced, and binds nothing more.
pub proof fn lemma_unify_stable(p: Term, v: Val, s: Bindings, t: Bindings)
    requires
        unify_spec(p, v, s).0 == Ok::<bool, UnifyErr>(true),
        extends(unify_spec(p, v, s).1, t),
    ensures
        unify_spec(p, v, t) == (Ok::<bool, UnifyErr>(true), t),
    decreases p,
{
    match p {
        Term::Literal(_) => {},
        Term::Variable(name) => {
            lemma_bind_check_stable(name@, v, s, t);
        },
        Term::Record(fields) => match v {
            Val::Record(cols) => {
                lemma_fields_stable(fields@, cols, s, t);
            },
            _ => {},
        },
        Term::StringPattern(parts) => match v {
            Val::Str(text) => {
                lemma_parts_stable(parts@, text, s, t);
            },
            _ => {},
        },
    }
}

proof fn lemma_fields_stable(fields: Seq<(String, Term)>, cols: Seq<(Seq<char>, Val)>, s: Bindings, t: Bindings)
    requires
        unify_fields(fields, cols, s).0 == Ok::<bool, UnifyErr>(true),
        extends(unify_fields(fields, cols, s).1, t),
    ensures
        unify_fields(fields, cols, t) == (Ok::<bool, UnifyErr>(true), t),
    decreases fields,
{
    if fields.len() > 0 {
        match record_get(cols, fields[0].0@) {
            None => {},
            Some(fv) => {
                let (r, s1) = unify_spec(fields[0].1, fv, s);
                assert(r == Ok::<bool, UnifyErr>(true));
                lemma_fields_extends(fields.drop_first(), cols, s1);
                lemma_extends_trans(s1, unify_fields(fields.drop_first(), cols, s1).1, t);
                assert(decreases_to!(fields => fields[0].1));
                lemma_unify_stable(fields[0].1, fv, s, t);
                lemma_fields_stable(fields.drop_first(), cols, s1, t);
            },
        }
    }
}

/// A string decomposition that succeeded succeeds again, binding nothing
/// more, under any bindings that begin with the ones it produced.
pub proof fn lemma_parts_stable(parts: Seq<StringPatternPart>, text: Seq<char>, s: Bindings, t: Bindings)
    requires
        unify_parts(parts, text, s).0 == Ok::<bool, UnifyErr>(true),
        extends(unify_parts(parts, text, s).1, t),
    ensures
        unify_parts(parts, text, t) == (Ok::<bool, UnifyErr>(true), t),
    decreases parts.len(),
{
    reveal(unify_parts);
    if parts.len() > 0 {
        match parts[0] {
            StringPatternPart::Literal(lit) => {
                lemma_parts_stable(parts.drop_first(), text.skip(lit@.len() as int), s, t);
            },
            StringPatternPart::Variable(name) => {
                if parts.len() == 1 {
                    lemma_bind_check_stable(name@, Val::Str(text), s, t);
                } else {
                    match first_literal(parts.drop_first()) {
                        Some(lit) => match find(text, lit) {
                            Some(pos) => {
                                let (r, s1) = bind_check(name@, Val::Str(text.take(pos)), s);
                                lemma_parts_extends(parts.drop_first(), text.skip(pos), s1);
                                lemma_extends_trans(s1, unify_parts(parts.drop_first(), text.skip(pos), s1).1, t);
                                lemma_bind_check_stable(name@, Val::Str(text.take(pos)), s, t);
                                lemma_parts_stable(parts.drop_first(), text.skip(pos), s1, t);
                            },
                            None => {},
                        },
                        None => {
                            let (r, s1) = bind_check(name@, Val::Str(Seq::empty()), s);
                            lemma_parts_extends(parts.drop_first(), text, s1);
                            lemma_extends_trans(s1, unify_parts(parts.drop_first(), text, s1).1, t);
                            lemma_bind_check_stable(name@, Val::Str(Seq::empty()), s, t);
                            lemma_parts_stable(parts.drop_first(), text, s1, t);
                        },
                    }
                }
            },
        }
    }
}

} // verus!

verus! {

/// The text bound to `name`: that of a bound string or glob, else empty.
pub open spec fn bound_text(s: Bindings, name: Seq<char>) -> Seq<char> {
    match lookup(s, name) {
        Some(Val::Str(x)) => x,
        Some(Val::Glob(x)) => x,
        _ => Seq::empty(),
    }
}

/// A string pattern written out under bindings: each literal as it is, each
/// variable as the text bound to it.
pub open spec fn assemble(parts: Seq<StringPatternPart>, s: Bindings) -> Seq<char>
    decreases parts.len(),
{
    if parts.len() == 0 {
        Seq::empty()
    } else {
        let head = match parts[0] {
            StringPatternPart::Literal(lit) => lit@,
            StringPatternPart::Variable(name) => bound_text(s, name@),
        };
        head + assemble(parts.drop_first(), s)
    }
}

proof fn lemma_bound_text(s: Bindings, name: Seq<char>, x: Seq<char>)
    requires
        lookup(s, name) matches Some(b) && val_eq(b, Val::Str(x)),
    ensures
        bound_text(s, name) == x,
{
}

/// One variable step of a decomposition: the variable took `x`, the rest of
/// the pattern matched `y`, so the whole pattern writes out to `x + y`.
proof fn lemma_assemble_variable(
    parts: Seq<StringPatternPart>,
    name: Seq<char>,
    x: Seq<char>,
    y: Seq<char>,
    s: Bindings,
    s1: Bindings,
    fin: Bindings,
)
    requires
        parts.len() > 0,
        parts[0] matches StringPatternPart::Variable(n) && n@ == name,
        bind_check(name, Val::Str(x), s) == (Ok::<bool, UnifyErr>(true), s1),
        extends(s1, fin),
        assemble(parts.drop_first(), fin) == y,
    ensures
        assemble(parts, fin) == x + y,
{
    lemma_bind_check_stable(name, Val::Str(x), s, fin);
    lemma_bound_text(fin, name, x);
}

proof fn lemma_leftmost_exists(t: Seq<char>, lit: Seq<char>, p: int)
    requires
        occurs_at(t, lit, p),
    ensures
        exists|q: int| occurs_at(t, lit, q) && forall|r: int| 0 <= r < q ==> !occurs_at(t, lit, r),
    decreases p,
{
    if exists|r: int| 0 <= r < p && occurs_at(t, lit, r) {
        let r = choose|r: int| 0 <= r < p && occurs_at(t, lit, r);
        lemma_leftmost_exists(t, lit, r);
    } else {
        assert(occurs_at(t, lit, p) && forall|r: int| 0 <= r < p ==> !occurs_at(t, lit, r));
    }
}

proof fn lemma_find_split(t: Seq<char>, lit: Seq<char>, pos: int)
    requires
        find(t, lit) == Some(pos),
    ensures
        t == t.take(pos) + t.skip(pos),
{
    reveal(find);
    let p = choose|p: int| occurs_at(t, lit, p);
    lemma_leftmost_exists(t, lit, p);
    assert(occurs_at(t, lit, pos));
    assert(t =~= t.take(pos) + t.skip(pos));
}

/// String decomposition is exact: when a string pattern matches a string, the
/// pattern written out under the resulting bindings is that string again.
pub proof fn lemma_parts_sound(parts: Seq<StringPatternPart>, text: Seq<char>, s: Bindings)
    requires
        unify_parts(parts, text, s).0 == Ok::<bool, UnifyErr>(true),
    ensures
        assemble(parts, unify_parts(parts, text, s).1) == text,
    decreases parts.len(),
{
    let fin = unify_parts(parts, text, s).1;
    assert(fin.subrange(0, fin.len() as int) =~= fin);
    if parts.len() == 0 {
        lemma_parts_empty(parts, text, s);
        assert(text =~= Seq::<char>::empty());
    } else {
        match parts[0] {
            StringPatternPart::Literal(lit) => {
                lemma_parts_literal(parts, text, s);
                let rest = text.skip(lit@.len() as int);
                lemma_parts_sound(parts.drop_first(), rest, s);
                assert(text =~= text.subrange(0, lit@.len() as int) + rest);
            },
            StringPatternPart::Variable(name) => {
                if parts.len() == 1 {
                    lemma_parts_last_variable(parts, text, s);
                    assert(parts.drop_first() =~= Seq::<StringPatternPart>::empty());
                    lemma_assemble_variable(parts, name@, text, Seq::empty(), s, fin, fin);
                    assert(text + Seq::<char>::empty() =~= text);
                } else {
                    match first_literal(parts.drop_first()) {
                        Some(lit) => {
                            let found = find(text, lit);
                            if let Some(pos) = found {
                                lemma_parts_variable_found(parts, text, s, lit, pos);
                                let s1 = bind_check(name@, Val::Str(text.take(pos)), s).1;
                                lemma_parts_extends(parts.drop_first(), text.skip(pos), s1);
                                lemma_parts_sound(parts.drop_first(), text.skip(pos), s1);
                                lemma_assemble_variable(parts, name@, text.take(pos), text.skip(pos), s, s1, fin);
                                lemma_find_split(text, lit, pos);
                            } else {
                                lemma_parts_variable_missing(parts, text, s, lit);
                            }
                        },
                        None => {
                            lemma_parts_variable_no_literal(parts, text, s);
                            let s1 = bind_check(name@, Val::Str(Seq::empty()), s).1;
                            lemma_parts_extends(parts.drop_first(), text, s1);
                            lemma_parts_sound(parts.drop_first(), text, s1);
                            lemma_assemble_variable(parts, name@, Seq::empty(), text, s, s1, fin);
                            assert(Seq::<char>::empty() + text =~= text);
                        },
                    }
                }
            },
        }
    }
}

} // verus!

verus! {

/// A literal pattern matches the very value it holds, binding nothing.
pub proof fn lemma_literal_matches_itself(lit: Value, s: Bindings)
    ensures
        unify_spec(Term::Literal(lit), lit@, s) == (Ok::<bool, UnifyErr>(true), s),
{
    crate::value::lemma_val_eq_reflexive(lit@);
}

/// A variable binds once and must agree afterwards: unbound, it matches any
/// value and is then bound to it; bound, it matches exactly the values equal
/// to its binding, and binds nothing.
pub proof fn lemma_variable_binds(name: String, v: Val, s: Bindings)
    ensures
        lookup(s, name@) is None ==> unify_spec(Term::Variable(name), v, s) == (
            Ok::<bool, UnifyErr>(true),
            s.push((name@, v)),
        ) && lookup(unify_spec(Term::Variable(name), v, s).1, name@) == Some(v),
        lookup(s, name@) matches Some(b) ==> unify_spec(Term::Variable(name), v, s) == (
            Ok::<bool, UnifyErr>(val_eq(b, v)),
            s,
        ),
{
    reveal(bind_check);
    if lookup(s, name@) is None {
        crate::substitution::lemma_lookup_push(s, (name@, v), name@);
    }
}

} // verus!

verus! {

/// Every binding from index `k` of `s` on names one of `names`.
pub open spec fn new_names_within(s: Bindings, k: int, names: Seq<Seq<char>>) -> bool {
    forall|i: int| k <= i < s.len() ==> #[trigger] names.contains(s[i].0)
}

/// Unification binds only variables of the pattern: every binding it adds
/// names a variable that occurs in the pattern.
pub proof fn lemma_unify_new_names(p: Term, v: Val, s: Bindings)
    ensures
        new_names_within(unify_spec(p, v, s).1, s.len() as int, occurrences(p)),
    decreases p,
{
    match p {
        Term::Literal(_) => {},
        Term::Variable(name) => {
            reveal(bind_check);
            if lookup(s, name@) is None {
                assert(occurrences(p)[0] == name@);
            }
        },
        Term::Record(fields) => match v {
            Val::Record(cols) => {
                lemma_fields_new_names(fields@, cols, s);
            },
            _ => {},
        },
        Term::StringPattern(parts) => match v {
            Val::Str(t) => {
                lemma_parts_new_names(parts@, t, s);
            },
            _ => {},
        },
    }
}

proof fn lemma_fields_new_names(fields: Seq<(String, Term)>, cols: Seq<(Seq<char>, Val)>, s: Bindings)
    ensures
        new_names_within(unify_fields(fields, cols, s).1, s.len() as int, field_occurrences(fields)),
    decreases fields,
{
    if fields.len() > 0 {
        match record_get(cols, fields[0].0@) {
            None => {},
            Some(fv) => {
                assert(decreases_to!(fields => fields[0].1));
                lemma_unify_new_names(fields[0].1, fv, s);
                crate::term::lemma_field_occurrences_front(fields);
                let (r, s1) = unify_spec(fields[0].1, fv, s);
                let first = occurrences(fields[0].1);
                let rest = field_occurrences(fields.drop_first());
                let f = unify_fields(fields, cols, s).1;
                if r == Ok::<bool, UnifyErr>(true) {
                    lemma_fields_new_names(fields.drop_first(), cols, s1);
                    lemma_fields_extends(fields.drop_first(), cols, s1);
                    lemma_unify_extends(fields[0].1, fv, s);
                    assert forall|i: int| s.len() <= i < f.len() implies #[trigger] field_occurrences(
                        fields,
                    ).contains(f[i].0) by {
                        crate::term::lemma_contains_concat(first, rest, f[i].0);
                        if i < s1.len() {
                            assert(f[i] == s1[i]);
                            assert(first.contains(s1[i].0));
                        } else {
                            assert(rest.contains(f[i].0));
                        }
                    }
                } else {
                    assert forall|i: int| s.len() <= i < f.len() implies #[trigger] field_occurrences(
                        fields,
                    ).contains(f[i].0) by {
                        crate::term::lemma_contains_concat(first, rest, f[i].0);
                        assert(first.contains(f[i].0));
                    }
                }
            },
        }
    }
}

proof fn lemma_bind_check_new_name(name: Seq<char>, v: Val, s: Bindings, names: Seq<Seq<char>>)
    requires
        names.contains(name),
    ensures
        new_names_within(bind_check(name, v, s).1, s.len() as int, names),
{
    reveal(bind_check);
}

/// String decomposition binds only variables of the pattern.
pub proof fn lemma_parts_new_names(parts: Seq<StringPatternPart>, t: Seq<char>, s: Bindings)
    ensures
        new_names_within(unify_parts(parts, t, s).1, s.len() as int, part_occurrences(parts)),
    decreases parts.len(),
{
    if parts.len() == 0 {
        lemma_parts_empty(parts, t, s);
    } else {
        crate::term::lemma_part_occurrences_front(parts);
        let head = crate::term::part_names(parts[0]);
        let rest = part_occurrences(parts.drop_first());
        let f = unify_parts(parts, t, s).1;
        match parts[0] {
            StringPatternPart::Literal(lit) => {
                lemma_parts_literal(parts, t, s);
                lemma_parts_new_names(parts.drop_first(), t.skip(lit@.len() as int), s);
                assert forall|i: int| s.len() <= i < f.len() implies #[trigger] part_occurrences(parts).contains(
                    f[i].0,
                ) by {
                    crate::term::lemma_contains_concat(head, rest, f[i].0);
                }
            },
            StringPatternPart::Variable(name) => {
                assert(head[0] == name@);
                assert(head.contains(name@));
                crate::term::lemma_contains_concat(head, rest, name@);
                if parts.len() == 1 {
                    lemma_parts_last_variable(parts, t, s);
                    lemma_bind_check_new_name(name@, Val::Str(t), s, part_occurrences(parts));
                } else {
                    let lit_opt = first_literal(parts.drop_first());
                    let (x, u) = match lit_opt {
                        Some(lit) => match find(t, lit) {
                            Some(pos) => (t.take(pos), t.skip(pos)),
                            None => (Seq::empty(), t),
                        },
                        None => (Seq::empty(), t),
                    };
                    let proceeds = match lit_opt {
                        Some(lit) => find(t, lit) is Some,
                        None => true,
                    };
                    match lit_opt {
                        Some(lit) => match find(t, lit) {
                            Some(pos) => {
                                lemma_parts_variable_found(parts, t, s, lit, pos);
                            },
                            None => {
                                lemma_parts_variable_missing(parts, t, s, lit);
                            },
                        },
                        None => {
                            lemma_parts_variable_no_literal(parts, t, s);
                        },
                    }
                    if proceeds {
                        let (r, s1) = bind_check(name@, Val::Str(x), s);
                        lemma_bind_check_new_name(name@, Val::Str(x), s, part_occurrences(parts));
                        lemma_bind_check_extends(name@, Val::Str(x), s);
                        if r == Ok::<bool, UnifyErr>(true) {
                            lemma_parts_new_names(parts.drop_first(), u, s1);
                            lemma_parts_extends(parts.drop_first(), u, s1);
                            assert forall|i: int| s.len() <= i < f.len() implies #[trigger] part_occurrences(
                                parts,
                            ).contains(f[i].0) by {
                                crate::term::lemma_contains_concat(head, rest, f[i].0);
                                if i < s1.len() {
                                    assert(f[i] == s1[i]);
                                }
                            }
                        }
                    }
                }
            },
        }
    }
}

} // verus!

verus! {

/// Every name of `names` is bound in `s`.
pub open spec fn all_bound(s: Bindings, names: Seq<Seq<char>>) -> bool {
    forall|n: Seq<char>| #[trigger] names.contains(n) ==> lookup(s, n) is Some
}

proof fn lemma_all_bound_extends(s: Bindings, t: Bindings, names: Seq<Seq<char>>)
    requires
        all_bound(s, names),
        extends(s, t),
    ensures
        all_bound(t, names),
{
    assert forall|n: Seq<char>| #[trigger] names.contains(n) implies lookup(t, n) is Some by {
        crate::substitution::lemma_lookup_prefix(s, t, n);
    }
}

/// A match binds every variable of the pattern.
pub proof fn lemma_unify_binds_all(p: Term, v: Val, s: Bindings)
    requires
        unify_spec(p, v, s).0 == Ok::<bool, UnifyErr>(true),
    ensures
        all_bound(unify_spec(p, v, s).1, occurrences(p)),
    decreases p,
{
    let f = unify_spec(p, v, s).1;
    assert(f.subrange(0, f.len() as int) =~= f);
    match p {
        Term::Literal(_) => {},
        Term::Variable(name) => {
            lemma_bind_check_stable(name@, v, s, f);
            assert forall|n: Seq<char>| #[trigger] occurrences(p).contains(n) implies lookup(f, n) is Some by {
                assert(occurrences(p)[0] == name@);
            }
        },
        Term::Record(fields) => match v {
            Val::Record(cols) => {
                lemma_fields_bind_all(fields@, cols, s);
            },
            _ => {},
        },
        Term::StringPattern(parts) => match v {
            Val::Str(t) => {
                lemma_parts_bind_all(parts@, t, s);
            },
            _ => {},
        },
    }
}

proof fn lemma_fields_bind_all(fields: Seq<(String, Term)>, cols: Seq<(Seq<char>, Val)>, s: Bindings)
    requires
        unify_fields(fields, cols, s).0 == Ok::<bool, UnifyErr>(true),
    ensures
        all_bound(unify_fields(fields, cols, s).1, field_occurrences(fields)),
    decreases fields,
{
    if fields.len() > 0 {
        match record_get(cols, fields[0].0@) {
            None => {},
            Some(fv) => {
                let (r, s1) = unify_spec(fields[0].1, fv, s);
                let f = unify_fields(fields, cols, s).1;
                assert(decreases_to!(fields => fields[0].1));
                lemma_unify_binds_all(fields[0].1, fv, s);
                lemma_fields_bind_all(fields.drop_first(), cols, s1);
                lemma_fields_extends(fields.drop_first(), cols, s1);
                lemma_all_bound_extends(s1, f, occurrences(fields[0].1));
                crate::term::lemma_field_occurrences_front(fields);
                assert forall|n: Seq<char>| #[trigger] field_occurrences(fields).contains(n) implies lookup(
                    f,
                    n,
                ) is Some by {
                    crate::term::lemma_contains_concat(
                        occurrences(fields[0].1),
                        field_occurrences(fields.drop_first()),
                        n,
                    );
                }
            },
        }
    } else {
        assert(field_occurrences(fields).len() == 0);
    }
}

/// A successful string decomposition binds every variable of the pattern.
pub proof fn lemma_parts_bind_all(parts: Seq<StringPatternPart>, t: Seq<char>, s: Bindings)
    requires
        unify_parts(parts, t, s).0 == Ok::<bool, UnifyErr>(true),
    ensures
        all_bound(unify_parts(parts, t, s).1, part_occurrences(parts)),
    decreases parts.len(),
{
    let f = unify_parts(parts, t, s).1;
    if parts.len() == 0 {
        assert(part_occurrences(parts).len() == 0);
    } else {
        crate::term::lemma_part_occurrences_front(parts);
        let head = crate::term::part_names(parts[0]);
        let rest = part_occurrences(parts.drop_first());
        match parts[0] {
            StringPatternPart::Literal(lit) => {
                lemma_parts_literal(parts, t, s);
                lemma_parts_bind_all(parts.drop_first(), t.skip(lit@.len() as int), s);
                assert forall|n: Seq<char>| #[trigger] part_occurrences(parts).contains(n) implies lookup(
                    f,
                    n,
                ) is Some by {
                    crate::term::lemma_contains_concat(head, rest, n);
                }
            },
            StringPatternPart::Variable(name) => {
                assert(f.subrange(0, f.len() as int) =~= f);
                if parts.len() == 1 {
                    lemma_parts_last_variable(parts, t, s);
                    lemma_bind_check_stable(name@, Val::Str(t), s, f);
                    assert forall|n: Seq<char>| #[trigger] part_occurrences(parts).contains(n) implies lookup(
                        f,
                        n,
                    ) is Some by {
                        crate::term::lemma_contains_concat(head, rest, n);
                        assert(parts.drop_first().len() == 0);
                        assert(head[0] == name@);
                    }
                } else {
                    let lit_opt = first_literal(parts.drop_first());
                    let (x, u) = match lit_opt {
                        Some(lit) => match find(t, lit) {
                            Some(pos) => (t.take(pos), t.skip(pos)),
                            None => (Seq::empty(), t),
                        },
                        None => (Seq::empty(), t),
                    };
                    match lit_opt {
                        Some(lit) => match find(t, lit) {
                            Some(pos) => {
                                lemma_parts_variable_found(parts, t, s, lit, pos);
                            },
                            None => {
                                lemma_parts_variable_missing(parts, t, s, lit);
                            },
                        },
                        None => {
                            lemma_parts_variable_no_literal(parts, t, s);
                        },
                    }
                    let s1 = bind_check(name@, Val::Str(x), s).1;
                    lemma_parts_extends(parts.drop_first(), u, s1);
                    lemma_parts_bind_all(parts.drop_first(), u, s1);
                    lemma_bind_check_stable(name@, Val::Str(x), s, f);
                    assert forall|n: Seq<char>| #[trigger] part_occurrences(parts).contains(n) implies lookup(
                        f,
                        n,
                    ) is Some by {
                        crate::term::lemma_contains_concat(head, rest, n);
                        assert(head[0] == name@);
                    }
                }
            },
        }
    }
}

} // verus!

verus! {

/// `s` agrees with `f`: every variable that `s` binds, `f` binds to an equal value.
pub open spec fn agrees(s: Bindings, f: Bindings) -> bool {
    forall|n: Seq<char>|
        #[trigger] lookup(s, n) is Some ==> lookup(f, n) is Some && val_eq(
            lookup(f, n)->Some_0,
            lookup(s, n)->Some_0,
        )
}

/// No bound value holds a `Real` atom.
pub open spec fn bindings_real_free(s: Bindings) -> bool {
    forall|i: int| 0 <= i < s.len() ==> real_free(#[trigger] s[i].1)
}

proof fn lemma_lookup_real_free(s: Bindings, n: Seq<char>)
    requires
        bindings_real_free(s),
        lookup(s, n) is Some,
    ensures
        real_free(lookup(s, n)->Some_0),
{
    lemma_lookup(s, n);
}

proof fn lemma_record_get_real_free(cols: Seq<(Seq<char>, Val)>, n: Seq<char>)
    requires
        real_free(Val::Record(cols)),
        record_get(cols, n) is Some,
    ensures
        real_free(record_get(cols, n)->Some_0),
    decreases cols.len(),
{
    if cols.last().0 != n {
        assert forall|i: int| 0 <= i < cols.drop_last().len() implies real_free(
            #[trigger] cols.drop_last()[i].1,
        ) by {
            assert(cols.drop_last()[i] == cols[i]);
            crate::value::lemma_real_free_column(cols, i);
        }
        lemma_record_get_real_free(cols.drop_last(), n);
    } else {
        crate::value::lemma_real_free_column(cols, cols.len() - 1);
    }
}

proof fn lemma_same_bindings(a: Bindings, b: Bindings)
    requires
        extends(a, b),
        extends(b, a),
    ensures
        a == b,
{
    assert(a =~= b.subrange(0, a.len() as int));
    assert(b.subrange(0, a.len() as int) =~= b);
}

proof fn lemma_bind_check_agrees(name: Seq<char>, w: Val, s: Bindings, f: Bindings)
    requires
        bind_check(name, w, f) == (Ok::<bool, UnifyErr>(true), f),
        agrees(s, f),
        bindings_real_free(s),
        bindings_real_free(f),
        real_free(w),
    ensures
        bind_check(name, w, s).0 == Ok::<bool, UnifyErr>(true),
        agrees(bind_check(name, w, s).1, f),
        bindings_real_free(bind_check(name, w, s).1),
{
    reveal(bind_check);
    assert(lookup(f, name) is Some) by {
        if lookup(f, name) is None {
            assert(f.push((name, w)).len() != f.len());
        }
    }
    let b = lookup(f, name)->Some_0;
    lemma_lookup_real_free(f, name);
    match lookup(s, name) {
        Some(c) => {
            assert(lookup(s, name) is Some);
            lemma_lookup_real_free(s, name);
            crate::value::lemma_val_eq_symmetric(b, c);
            crate::value::lemma_val_eq_transitive(c, b, w);
        },
        None => {
            let s1 = s.push((name, w));
            assert forall|m: Seq<char>| #[trigger] lookup(s1, m) is Some implies lookup(f, m) is Some && val_eq(
                lookup(f, m)->Some_0,
                lookup(s1, m)->Some_0,
            ) by {
                crate::substitution::lemma_lookup_push(s, (name, w), m);
                if m != name {
                    assert(lookup(s, m) is Some);
                }
            }
        },
    }
}

/// A pattern that accepts a value under bindings `f` also matches it from any
/// bindings that agree with `f`, and the bindings after the match still agree
/// with `f` (for values without `Real` atoms).
pub proof fn lemma_unify_agrees(p: Term, v: Val, s: Bindings, f: Bindings)
    requires
        unify_spec(p, v, f) == (Ok::<bool, UnifyErr>(true), f),
        agrees(s, f),
        bindings_real_free(s),
        bindings_real_free(f),
        real_free(v),
    ensures
        unify_spec(p, v, s).0 == Ok::<bool, UnifyErr>(true),
        agrees(unify_spec(p, v, s).1, f),
        bindings_real_free(unify_spec(p, v, s).1),
    decreases p,
{
    match p {
        Term::Literal(_) => {},
        Term::Variable(name) => {
            lemma_bind_check_agrees(name@, v, s, f);
        },
        Term::Record(fields) => match v {
            Val::Record(cols) => {
                lemma_fields_agree(fields@, cols, s, f);
            },
            _ => {},
        },
        Term::StringPattern(parts) => match v {
            Val::Str(t) => {
                lemma_parts_agree(parts@, t, s, f);
            },
            _ => {},
        },
    }
}

proof fn lemma_fields_agree(fields: Seq<(String, Term)>, cols: Seq<(Seq<char>, Val)>, s: Bindings, f: Bindings)
    requires
        unify_fields(fields, cols, f) == (Ok::<bool, UnifyErr>(true), f),
        agrees(s, f),
        bindings_real_free(s),
        bindings_real_free(f),
        real_free(Val::Record(cols)),
    ensures
        unify_fields(fields, cols, s).0 == Ok::<bool, UnifyErr>(true),
        agrees(unify_fields(fields, cols, s).1, f),
        bindings_real_free(unify_fields(fields, cols, s).1),
    decreases fields,
{
    if fields.len() > 0 {
        match record_get(cols, fields[0].0@) {
            None => {},
            Some(fv) => {
                let (r, f1) = unify_spec(fields[0].1, fv, f);
                assert(r == Ok::<bool, UnifyErr>(true));
                lemma_unify_extends(fields[0].1, fv, f);
                lemma_fields_extends(fields.drop_first(), cols, f1);
                lemma_same_bindings(f, f1);
                lemma_record_get_real_free(cols, fields[0].0@);
                assert(decreases_to!(fields => fields[0].1));
                lemma_unify_agrees(fields[0].1, fv, s, f);
                let s1 = unify_spec(fields[0].1, fv, s).1;
                lemma_fields_agree(fields.drop_first(), cols, s1, f);
            },
        }
    }
}

/// String decomposition version of [`lemma_unify_agrees`].
pub proof fn lemma_parts_agree(parts: Seq<StringPatternPart>, t: Seq<char>, s: Bindings, f: Bindings)
    requires
        unify_parts(parts, t, f) == (Ok::<bool, UnifyErr>(true), f),
        agrees(s, f),
        bindings_real_free(s),
        bindings_real_free(f),
    ensures
        unify_parts(parts, t, s).0 == Ok::<bool, UnifyErr>(true),
        agrees(unify_parts(parts, t, s).1, f),
        bindings_real_free(unify_parts(parts, t, s).1),
    decreases parts.len(),
{
    if parts.len() == 0 {
        lemma_parts_empty(parts, t, s);
        lemma_parts_empty(parts, t, f);
    } else {
        match parts[0] {
            StringPatternPart::Literal(lit) => {
                lemma_parts_literal(parts, t, s);
                lemma_parts_literal(parts, t, f);
                lemma_parts_agree(parts.drop_first(), t.skip(lit@.len() as int), s, f);
            },
            StringPatternPart::Variable(name) => {
                if parts.len() == 1 {
                    lemma_parts_last_variable(parts, t, s);
                    lemma_parts_last_variable(parts, t, f);
                    lemma_bind_check_agrees(name@, Val::Str(t), s, f);
                } else {
                    let lit_opt = first_literal(parts.drop_first());
                    let (x, u) = match lit_opt {
                        Some(lit) => match find(t, lit) {
                            Some(pos) => (t.take(pos), t.skip(pos)),
                            None => (Seq::empty(), t),
                        },
                        None => (Seq::empty(), t),
                    };
                    match lit_opt {
                        Some(lit) => match find(t, lit) {
                            Some(pos) => {
                                lemma_parts_variable_found(parts, t, s, lit, pos);
                                lemma_parts_variable_found(parts, t, f, lit, pos);
                            },
                            None => {
                                lemma_parts_variable_missing(parts, t, f, lit);
                            },
                        },
                        None => {
                            lemma_parts_variable_no_literal(parts, t, s);
                            lemma_parts_variable_no_literal(parts, t, f);
                        },
                    }
                    let (r, f1) = bind_check(name@, Val::Str(x), f);
                    assert(r == Ok::<bool, UnifyErr>(true));
                    lemma_bind_check_extends(name@, Val::Str(x), f);
                    lemma_parts_extends(parts.drop_first(), u, f1);
                    lemma_same_bindings(f, f1);
                    lemma_bind_check_agrees(name@, Val::Str(x), s, f);
                    let s1 = bind_check(name@, Val::Str(x), s).1;
                    lemma_parts_agree(parts.drop_first(), u, s1, f);
                }
            },
        }
    }
}

} // verus!

verus! {

proof fn lemma_bind_check_real_free(name: Seq<char>, w: Val, s: Bindings)
    requires
        bindings_real_free(s),
        real_free(w),
    ensures
        bindings_real_free(bind_check(name, w, s).1),
{
    reveal(bind_check);
    if lookup(s, name) is None {
        let s1 = s.push((name, w));
        assert forall|i: int| 0 <= i < s1.len() implies real_free(#[trigger] s1[i].1) by {
            if i < s.len() {
                assert(s1[i] == s[i]);
            }
        }
    }
}

/// Matching a value without `Real` atoms binds no `Real` atom.
pub proof fn lemma_unify_real_free(p: Term, v: Val, s: Bindings)
    requires
        bindings_real_free(s),
        real_free(v),
    ensures
        bindings_real_free(unify_spec(p, v, s).1),
    decreases p,
{
    match p {
        Term::Literal(_) => {},
        Term::Variable(name) => {
            lemma_bind_check_real_free(name@, v, s);
        },
        Term::Record(fields) => match v {
            Val::Record(cols) => {
                lemma_fields_real_free(fields@, cols, s);
            },
            _ => {},
        },
        Term::StringPattern(parts) => match v {
            Val::Str(t) => {
                lemma_parts_real_free(parts@, t, s);
            },
            _ => {},
        },
    }
}

proof fn lemma_fields_real_free(fields: Seq<(String, Term)>, cols: Seq<(Seq<char>, Val)>, s: Bindings)
    requires
        bindings_real_free(s),
        real_free(Val::Record(cols)),
    ensures
        bindings_real_free(unify_fields(fields, cols, s).1),
    decreases fields,
{
    if fields.len() > 0 {
        match record_get(cols, fields[0].0@) {
            None => {},
            Some(fv) => {
                lemma_record_get_real_free(cols, fields[0].0@);
                assert(decreases_to!(fields => fields[0].1));
                lemma_unify_real_free(fields[0].1, fv, s);
                let s1 = unify_spec(fields[0].1, fv, s).1;
                lemma_fields_real_free(fields.drop_first(), cols, s1);
            },
        }
    }
}

proof fn lemma_parts_real_free(parts: Seq<StringPatternPart>, t: Seq<char>, s: Bindings)
    requires
        bindings_real_free(s),
    ensures
        bindings_real_free(unify_parts(parts, t, s).1),
    decreases parts.len(),
{
    if parts.len() == 0 {
        lemma_parts_empty(parts, t, s);
    } else {
        match parts[0] {
            StringPatternPart::Literal(lit) => {
                lemma_parts_literal(parts, t, s);
                lemma_parts_real_free(parts.drop_first(), t.skip(lit@.len() as int), s);
            },
            StringPatternPart::Variable(name) => {
                if parts.len() == 1 {
                    lemma_parts_last_variable(parts, t, s);
                    lemma_bind_check_real_free(name@, Val::Str(t), s);
                } else {
                    let lit_opt = first_literal(parts.drop_first());
                    match lit_opt {
                        Some(lit) => match find(t, lit) {
                            Some(pos) => {
                                lemma_parts_variable_found(parts, t, s, lit, pos);
                                lemma_bind_check_real_free(name@, Val::Str(t.take(pos)), s);
                                let s1 = bind_check(name@, Val::Str(t.take(pos)), s).1;
                                lemma_parts_real_free(parts.drop_first(), t.skip(pos), s1);
                            },
                            None => {
                                lemma_parts_variable_missing(parts, t, s, lit);
                            },
                        },
                        None => {
                            lemma_parts_variable_no_literal(parts, t, s);
                            lemma_bind_check_real_free(name@, Val::Str(Seq::empty()), s);
                            let s1 = bind_check(name@, Val::Str(Seq::empty()), s).1;
                            lemma_parts_real_free(parts.drop_first(), t, s1);
                        },
                    }
                }
            },
        }
    }
}

} // verus!

verus! {

proof fn lemma_record_get_none(cols: Seq<(Seq<char>, Val)>, n: Seq<char>)
    requires
        forall|j: int| 0 <= j < cols.len() ==> #[trigger] cols[j].0 != n,
    ensures
        record_get(cols, n) is None,
    decreases cols.len(),
{
    if cols.len() > 0 {
        assert(cols[cols.len() - 1].0 != n);
        assert forall|j: int| 0 <= j < cols.drop_last().len() implies #[trigger] cols.drop_last()[j].0 != n by {
            assert(cols.drop_last()[j] == cols[j]);
        }
        lemma_record_get_none(cols.drop_last(), n);
    }
}

proof fn lemma_fields_missing(fields: Seq<(String, Term)>, cols: Seq<(Seq<char>, Val)>, s: Bindings, k: int)
    requires
        0 <= k < fields.len(),
        forall|i: int|
            0 <= i < k ==> (record_get(cols, #[trigger] fields[i].0@) matches Some(v) && unify_spec(
                fields[i].1,
                v,
                s,
            ) == (Ok::<bool, UnifyErr>(true), s)),
        forall|j: int| 0 <= j < cols.len() ==> #[trigger] cols[j].0 != fields[k].0@,
    ensures
        unify_fields(fields, cols, s) == (Err::<bool, UnifyErr>(
            UnifyErr::MissingField(fields[k].0@, column_names(cols)),
        ), s),
    decreases k,
{
    if k == 0 {
        lemma_record_get_none(cols, fields[0].0@);
    } else {
        assert(record_get(cols, fields[0].0@) is Some);
        let rest = fields.drop_first();
        assert forall|i: int|
            0 <= i < k - 1 implies (record_get(cols, #[trigger] rest[i].0@) matches Some(v) && unify_spec(
            rest[i].1,
            v,
            s,
        ) == (Ok::<bool, UnifyErr>(true), s)) by {
            assert(rest[i] == fields[i + 1]);
        }
        assert(rest[k - 1] == fields[k]);
        lemma_fields_missing(rest, cols, s, k - 1);
    }
}

/// A record pattern that names a field the record lacks is a structural
/// error, `MissingField` with the field and the record's column names,
/// whatever that field's pattern is (literal, variable, record or string
/// pattern), as long as the fields before it match without binding anything.
pub proof fn lemma_missing_field_error(fields: Vec<(String, Term)>, cols: Seq<(Seq<char>, Val)>, s: Bindings, k: int)
    requires
        0 <= k < fields@.len(),
        forall|i: int|
            0 <= i < k ==> (record_get(cols, #[trigger] fields@[i].0@) matches Some(v) && unify_spec(
                fields@[i].1,
                v,
                s,
            ) == (Ok::<bool, UnifyErr>(true), s)),
        forall|j: int| 0 <= j < cols.len() ==> #[trigger] cols[j].0 != fields@[k].0@,
    ensures
        unify_spec(Term::Record(fields), Val::Record(cols), s) == (Err::<bool, UnifyErr>(
            UnifyErr::MissingField(fields@[k].0@, cols.map_values(|c: (Seq<char>, Val)| c.0)),
        ), s),
{
    lemma_fields_missing(fields@, cols, s, k);
}

proof fn lemma_find_at(t: Seq<char>, lit: Seq<char>, p: int)
    requires
        occurs_at(t, lit, p),
        forall|q: int| 0 <= q < p ==> !occurs_at(t, lit, q),
    ensures
        find(t, lit) == Some(p),
{
    reveal(find);
    let c = choose|q: int| occurs_at(t, lit, q) && forall|r: int| 0 <= r < q ==> !occurs_at(t, lit, r);
    assert(occurs_at(t, lit, p) && forall|r: int| 0 <= r < p ==> !occurs_at(t, lit, r));
    if c < p {
        assert(!occurs_at(t, lit, c));
    } else if c > p {
        assert(!occurs_at(t, lit, p));
    }
}

/// Decomposition is complete for the documented rule: a variable is delimited
/// by the leftmost occurrence of the next literal. When the text is
/// `a + l1 + b + l2`, `l1` occurs nowhere before the end of `a` and `l2`
/// nowhere before the end of `b`, the pattern `&x l1 &y l2` matches it with
/// `x` bound to `a` and `y` to `b`.
pub proof fn lemma_decompose_next_literal(
    parts: Seq<StringPatternPart>,
    x: String,
    l1: String,
    y: String,
    l2: String,
    a: Seq<char>,
    b: Seq<char>,
    s: Bindings,
)
    requires
        parts == seq![
            StringPatternPart::Variable(x),
            StringPatternPart::Literal(l1),
            StringPatternPart::Variable(y),
            StringPatternPart::Literal(l2),
        ],
        x@ != y@,
        lookup(s, x@) is None,
        lookup(s, y@) is None,
        forall|q: int| 0 <= q < a.len() ==> !occurs_at(a + l1@ + b + l2@, l1@, q),
        forall|q: int| 0 <= q < b.len() ==> !occurs_at(b + l2@, l2@, q),
    ensures
        unify_parts(parts, a + l1@ + b + l2@, s).0 == Ok::<bool, UnifyErr>(true),
        lookup(unify_parts(parts, a + l1@ + b + l2@, s).1, x@) == Some(Val::Str(a)),
        lookup(unify_parts(parts, a + l1@ + b + l2@, s).1, y@) == Some(Val::Str(b)),
{
    reveal(bind_check);
    let t = a + l1@ + b + l2@;
    let p1 = parts.drop_first();
    assert(p1 =~= seq![
        StringPatternPart::Literal(l1),
        StringPatternPart::Variable(y),
        StringPatternPart::Literal(l2),
    ]);
    assert(first_literal(p1) == Some(l1@));
    assert(t.subrange(a.len() as int, a.len() + l1@.len() as int) =~= l1@);
    lemma_find_at(t, l1@, a.len() as int);
    lemma_parts_variable_found(parts, t, s, l1@, a.len() as int);
    assert(t.take(a.len() as int) =~= a);
    let s1 = s.push((x@, Val::Str(a)));
    let t1 = t.skip(a.len() as int);
    assert(t1 =~= l1@ + b + l2@);
    lemma_parts_literal(p1, t1, s1);
    assert(t1.subrange(0, l1@.len() as int) =~= l1@);
    assert(occurs_at(t1, l1@, 0));
    let p2 = p1.drop_first();
    let t2 = t1.skip(l1@.len() as int);
    assert(t2 =~= b + l2@);
    assert(p2 =~= seq![StringPatternPart::Variable(y), StringPatternPart::Literal(l2)]);
    assert(first_literal(p2.drop_first()) == Some(l2@));
    assert(t2.subrange(b.len() as int, b.len() + l2@.len() as int) =~= l2@);
    lemma_find_at(t2, l2@, b.len() as int);
    lemma_parts_variable_found(p2, t2, s1, l2@, b.len() as int);
    crate::substitution::lemma_lookup_push(s, (x@, Val::Str(a)), y@);
    crate::substitution::lemma_lookup_push(s, (x@, Val::Str(a)), x@);
    assert(t2.take(b.len() as int) =~= b);
    let s2 = s1.push((y@, Val::Str(b)));
    let p3 = p2.drop_first();
    let t3 = t2.skip(b.len() as int);
    assert(t3 =~= l2@);
    assert(p3 =~= seq![StringPatternPart::Literal(l2)]);
    lemma_parts_literal(p3, t3, s2);
    assert(t3.subrange(0, l2@.len() as int) =~= l2@);
    assert(p3.drop_first() =~= Seq::<StringPatternPart>::empty());
    lemma_parts_empty(p3.drop_first(), t3.skip(l2@.len() as int), s2);
    crate::substitution::lemma_lookup_push(s1, (y@, Val::Str(b)), x@);
    crate::substitution::lemma_lookup_push(s1, (y@, Val::Str(b)), y@);
}

} // verus!
