use vstd::prelude::*;

verus! {

broadcast use vstd::seq::group_seq_axioms;

/// The mathematical content of a [`Value`]: what unification reads of it.
pub enum Val {
    Nothing,
    Bool(bool),
    Int(i64),
    Str(Seq<char>),
    Glob(Seq<char>),
    List(Seq<Val>),
    Record(Seq<(Seq<char>, Val)>),
    Real(u64, Option<(i64, i64)>),
    Other(u64),
}

/// A structured data value: the shape that patterns are matched against.
///
/// Strings, lists and records are held as plain data, since unification looks
/// inside them. Every other kind of data (floats, sizes, dates, closures, ...)
/// is an atom whose number identifies its equality class. A non-integer
/// number is a `Real` atom, which also carries the range of integers that
/// compare equal to it, if there are any: numbers compare across the integer
/// and non-integer kinds. Anything else is an `Other` atom. Two atoms are
/// equal exactly when their numbers are.
#[derive(Debug)]
pub enum Value {
    Nothing,
    Bool(bool),
    Int(i64),
    Str(String),
    Glob(String),
    List(Vec<Value>),
    Record(Vec<(String, Value)>),
    Real(u64, Option<(i64, i64)>),
    Other(u64),
}

pub open spec fn val_of(v: Value) -> Val
    decreases v,
{
    match v {
        Value::Nothing => Val::Nothing,
        Value::Bool(b) => Val::Bool(b),
        Value::Int(i) => Val::Int(i),
        Value::Str(s) => Val::Str(s@),
        Value::Glob(s) => Val::Glob(s@),
        Value::List(items) => Val::List(vals_of(items@)),
        Value::Record(cols) => Val::Record(cols_of(cols@)),
        Value::Real(k, ints) => Val::Real(k, ints),
        Value::Other(k) => Val::Other(k),
    }
}

pub open spec fn vals_of(s: Seq<Value>) -> Seq<Val>
    decreases s,
{
    if s.len() == 0 {
        Seq::empty()
    } else {
        vals_of(s.drop_last()).push(val_of(s.last()))
    }
}

pub open spec fn cols_of(s: Seq<(String, Value)>) -> Seq<(Seq<char>, Val)>
    decreases s,
{
    if s.len() == 0 {
        Seq::empty()
    } else {
        cols_of(s.drop_last()).push((s.last().0@, val_of(s.last().1)))
    }
}

/// Number of columns before index `upto` that are named `name`.
pub open spec fn count_name(cols: Seq<(Seq<char>, Val)>, name: Seq<char>, upto: int) -> nat
    decreases upto,
{
    if upto <= 0 {
        0
    } else if cols[upto - 1].0 == name {
        count_name(cols, name, upto - 1) + 1
    } else {
        count_name(cols, name, upto - 1)
    }
}

/// Equality of values as the data model defines it.
///
/// Strings and globs compare by their text, in any combination. Lists are equal
/// when they have the same length and are equal element by element. Records are
/// equal regardless of column order: they have the same length, and the k-th
/// column named `n` of one equals the k-th column named `n` of the other.
/// Atoms of one kind are equal when their class numbers are; an integer equals
/// a `Real` atom whose range of equal integers holds it. Values of other
/// different kinds are never equal.
pub open spec fn val_eq(a: Val, b: Val) -> bool
    decreases a,
{
    match (a, b) {
        (Val::Nothing, Val::Nothing) => true,
        (Val::Bool(x), Val::Bool(y)) => x == y,
        (Val::Int(x), Val::Int(y)) => x == y,
        (Val::Str(x), Val::Str(y)) => x == y,
        (Val::Str(x), Val::Glob(y)) => x == y,
        (Val::Glob(x), Val::Str(y)) => x == y,
        (Val::Glob(x), Val::Glob(y)) => x == y,
        (Val::List(xs), Val::List(ys)) => {
            &&& xs.len() == ys.len()
            &&& forall|i: int| 0 <= i < xs.len() ==> val_eq(#[trigger] xs[i], ys[i])
        },
        (Val::Record(xs), Val::Record(ys)) => {
            &&& xs.len() == ys.len()
            &&& forall|i: int|
                0 <= i < xs.len() ==> {
                    let j = partner(ys, (#[trigger] xs[i]).0, count_name(xs, xs[i].0, i));
                    0 <= j && val_eq(xs[i].1, ys[j].1)
                }
        },
        (Val::Real(x, _), Val::Real(y, _)) => x == y,
        (Val::Int(i), Val::Real(_, Some(r))) => r.0 <= i && i <= r.1,
        (Val::Real(_, Some(r)), Val::Int(i)) => r.0 <= i && i <= r.1,
        (Val::Other(x), Val::Other(y)) => x == y,
        _ => false,
    }
}

/// Index of the column of `cols` named `name` that has exactly `k` earlier
/// columns of that name, or -1 when there is none.
pub open spec fn partner(cols: Seq<(Seq<char>, Val)>, name: Seq<char>, k: nat) -> int {
    if exists|j: int| 0 <= j < cols.len() && cols[j].0 == name && count_name(cols, name, j) == k {
        choose|j: int| 0 <= j < cols.len() && cols[j].0 == name && count_name(cols, name, j) == k
    } else {
        -1
    }
}

/// The `i`-th column of `xs` has an equal partner column in `ys` (see [`val_eq`]).
pub open spec fn col_ok(xs: Seq<(Seq<char>, Val)>, ys: Seq<(Seq<char>, Val)>, i: int) -> bool {
    let j = partner(ys, xs[i].0, count_name(xs, xs[i].0, i));
    0 <= j && val_eq(xs[i].1, ys[j].1)
}

pub proof fn lemma_vals_of(s: Seq<Value>)
    ensures
        vals_of(s).len() == s.len(),
        forall|i: int| 0 <= i < s.len() ==> #[trigger] vals_of(s)[i] == val_of(s[i]),
    decreases s.len(),
{
    if s.len() > 0 {
        lemma_vals_of(s.drop_last());
    }
}

pub proof fn lemma_cols_of(s: Seq<(String, Value)>)
    ensures
        cols_of(s).len() == s.len(),
        forall|i: int|
            0 <= i < s.len() ==> #[trigger] cols_of(s)[i] == (s[i].0@, val_of(s[i].1)),
    decreases s.len(),
{
    if s.len() > 0 {
        lemma_cols_of(s.drop_last());
    }
}

impl View for Value {
    type V = Val;

    open spec fn view(&self) -> Val {
        val_of(*self)
    }
}

} // verus!

verus! {

/// Columns before index `j` named `name` are strictly fewer than those before a later index.
pub proof fn lemma_count_name_grows(cols: Seq<(Seq<char>, Val)>, name: Seq<char>, j1: int, j2: int)
    requires
        0 <= j1 < j2 <= cols.len(),
        cols[j1].0 == name,
    ensures
        count_name(cols, name, j2) >= count_name(cols, name, j1) + 1,
    decreases j2 - j1,
{
    if j2 > j1 + 1 {
        lemma_count_name_grows(cols, name, j1, j2 - 1);
    }
}

/// At most one column has a given name and a given number of earlier columns of that name.
pub proof fn lemma_count_name_unique(cols: Seq<(Seq<char>, Val)>, name: Seq<char>, j1: int, j2: int)
    requires
        0 <= j1 < cols.len(),
        0 <= j2 < cols.len(),
        cols[j1].0 == name,
        cols[j2].0 == name,
        count_name(cols, name, j1) == count_name(cols, name, j2),
    ensures
        j1 == j2,
{
    if j1 < j2 {
        lemma_count_name_grows(cols, name, j1, j2);
    } else if j2 < j1 {
        lemma_count_name_grows(cols, name, j2, j1);
    }
}

/// Every value equals itself.
pub proof fn lemma_val_eq_reflexive(a: Val)
    ensures
        val_eq(a, a),
    decreases a,
{
    match a {
        Val::List(xs) => {
            assert forall|i: int| 0 <= i < xs.len() implies val_eq(#[trigger] xs[i], xs[i]) by {
                assert(decreases_to!(a => xs[i]));
                lemma_val_eq_reflexive(xs[i]);
            }
        },
        Val::Record(xs) => {
            assert forall|i: int| 0 <= i < xs.len() implies {
                let j = partner(xs, (#[trigger] xs[i]).0, count_name(xs, xs[i].0, i));
                0 <= j && val_eq(xs[i].1, xs[j].1)
            } by {
                let name = xs[i].0;
                let k = count_name(xs, name, i);
                let j = partner(xs, name, k);
                assert(0 <= i < xs.len() && xs[i].0 == name && count_name(xs, name, i) == k);
                lemma_count_name_unique(xs, name, i, j);
                assert(decreases_to!(a => xs[i].1));
                lemma_val_eq_reflexive(xs[i].1);
            }
        },
        _ => {},
    }
}

/// Counts the columns before `upto` that are named `name`.
fn count_before(cols: &Vec<(String, Value)>, name: &String, upto: usize) -> (c: usize)
    requires
        upto <= cols.len(),
    ensures
        c == count_name(cols_of(cols@), name@, upto as int),
{
    proof {
        lemma_cols_of(cols@);
    }
    let mut c: usize = 0;
    let mut j: usize = 0;
    while j < upto
        invariant
            j <= upto <= cols.len(),
            c <= j,
            c == count_name(cols_of(cols@), name@, j as int),
            cols_of(cols@).len() == cols@.len(),
            forall|i: int|
                0 <= i < cols@.len() ==> #[trigger] cols_of(cols@)[i] == (
                cols@[i].0@,
                val_of(cols@[i].1),
            ),
        decreases upto - j,
    {
        if cols[j].0 == *name {
            c = c + 1;
        }
        j = j + 1;
    }
    c
}

impl Value {
    /// Whether two values are equal (see [`val_eq`]).
    pub fn equals(&self, other: &Value) -> (r: bool)
        ensures
            r == val_eq(self@, other@),
        decreases self,
    {
        match (self, other) {
            (Value::Nothing, Value::Nothing) => true,
            (Value::Bool(x), Value::Bool(y)) => *x == *y,
            (Value::Int(x), Value::Int(y)) => *x == *y,
            (Value::Str(x), Value::Str(y)) => *x == *y,
            (Value::Str(x), Value::Glob(y)) => *x == *y,
            (Value::Glob(x), Value::Str(y)) => *x == *y,
            (Value::Glob(x), Value::Glob(y)) => *x == *y,
            (Value::Real(x, _), Value::Real(y, _)) => *x == *y,
            (Value::Int(i), Value::Real(_, Some((lo, hi)))) => *lo <= *i && *i <= *hi,
            (Value::Real(_, Some((lo, hi))), Value::Int(i)) => *lo <= *i && *i <= *hi,
            (Value::Other(x), Value::Other(y)) => *x == *y,
            (Value::List(xs), Value::List(ys)) => {
                proof {
                    lemma_vals_of(xs@);
                    lemma_vals_of(ys@);
                }
                if xs.len() != ys.len() {
                    return false;
                }
                let mut i: usize = 0;
                while i < xs.len()
                    invariant
                        *self == Value::List(*xs),
                        *other == Value::List(*ys),
                        i <= xs.len() == ys.len(),
                        vals_of(xs@).len() == xs@.len(),
                        vals_of(ys@).len() == ys@.len(),
                        forall|k: int| 0 <= k < xs@.len() ==> #[trigger] vals_of(xs@)[k] == val_of(xs@[k]),
                        forall|k: int| 0 <= k < ys@.len() ==> #[trigger] vals_of(ys@)[k] == val_of(ys@[k]),
                        forall|k: int| 0 <= k < i ==> val_eq(#[trigger] vals_of(xs@)[k], vals_of(ys@)[k]),
                    decreases xs.len() - i,
                {
                    proof {
                        assert(decreases_to!(*self => (*self)->List_0));
                        assert(decreases_to!(*xs => xs@));
                        assert(decreases_to!(xs@ => xs@[i as int]));
                    }
                    if !xs[i].equals(&ys[i]) {
                        assert(!val_eq(vals_of(xs@)[i as int], vals_of(ys@)[i as int]));
                        return false;
                    }
                    i = i + 1;
                }
                true
            },
            (Value::Record(xs), Value::Record(ys)) => {
                proof {
                    lemma_cols_of(xs@);
                    lemma_cols_of(ys@);
                }
                if xs.len() != ys.len() {
                    return false;
                }
                let ghost cx = cols_of(xs@);
                let ghost cy = cols_of(ys@);
                let mut i: usize = 0;
                while i < xs.len()
                    invariant
                        *self == Value::Record(*xs),
                        *other == Value::Record(*ys),
                        cx == cols_of(xs@),
                        cy == cols_of(ys@),
                        i <= xs.len() == ys.len(),
                        cx.len() == xs@.len(),
                        cy.len() == ys@.len(),
                        forall|k: int| 0 <= k < xs@.len() ==> #[trigger] cx[k] == (xs@[k].0@, val_of(xs@[k].1)),
                        forall|k: int| 0 <= k < ys@.len() ==> #[trigger] cy[k] == (ys@[k].0@, val_of(ys@[k].1)),
                        forall|k: int| 0 <= k < i ==> #[trigger] col_ok(cx, cy, k),
                    decreases xs.len() - i,
                {
                    let name = &xs[i].0;
                    let k = count_before(xs, name, i);
                    let mut j: usize = 0;
                    let mut c: usize = 0;
                    let mut found: Option<usize> = None;
                    while j < ys.len()
                        invariant_except_break
                            found is None,
                        invariant
                            cy == cols_of(ys@),
                            cy.len() == ys@.len(),
                            forall|q: int| 0 <= q < ys@.len() ==> #[trigger] cy[q] == (ys@[q].0@, val_of(ys@[q].1)),
                            j <= ys.len(),
                            c <= j,
                            c == count_name(cy, name@, j as int),
                            c <= k,
                            forall|q: int|
                                0 <= q < j && cy[q].0 == name@ ==> count_name(cy, name@, q) < c,
                        ensures
                            found matches Some(f) ==> f < ys.len() && cy[f as int].0 == name@
                                && count_name(cy, name@, f as int) == k,
                            found is None ==> forall|q: int|
                                0 <= q < cy.len() && cy[q].0 == name@ ==> count_name(cy, name@, q) != k,
                        decreases ys.len() - j,
                    {
                        if ys[j].0 == *name {
                            if c == k {
                                found = Some(j);
                                break;
                            }
                            c = c + 1;
                        }
                        j = j + 1;
                        proof {
                            assert forall|q: int|
                                0 <= q < j && cy[q].0 == name@ implies count_name(cy, name@, q) < c by {
                                if q < j - 1 {
                                    lemma_count_name_grows(cy, name@, q, j - 1);
                                }
                            }
                        }
                    }
                    assert(self@ == Val::Record(cx));
                    assert(other@ == Val::Record(cy));
                    match found {
                        None => {
                            assert(partner(cy, cx[i as int].0, count_name(cx, cx[i as int].0, i as int)) == -1);
                            assert(!col_ok(cx, cy, i as int));
                            return false;
                        },
                        Some(f) => {
                            proof {
                                assert(decreases_to!(*self => (*self)->Record_0));
                                assert(decreases_to!(*xs => xs@));
                                assert(decreases_to!(xs@ => xs@[i as int]));
                                assert(decreases_to!(xs@[i as int] => xs@[i as int].1));
                            }
                            proof {
                                let p = partner(cy, name@, k as nat);
                                assert(cy[f as int].0 == name@ && count_name(cy, name@, f as int) == k);
                                lemma_count_name_unique(cy, name@, p, f as int);
                                assert(p == f);
                            }
                            if !xs[i].1.equals(&ys[f].1) {
                                assert(!col_ok(cx, cy, i as int));
                                return false;
                            }
                            assert(col_ok(cx, cy, i as int));
                        },
                    }
                    i = i + 1;
                }
                assert(self@ == Val::Record(cx));
                assert(other@ == Val::Record(cy));
                assert forall|q: int| 0 <= q < cx.len() implies {
                    let j = partner(cy, (#[trigger] cx[q]).0, count_name(cx, cx[q].0, q));
                    0 <= j && val_eq(cx[q].1, cy[j].1)
                } by {
                    assert(col_ok(cx, cy, q));
                }
                true
            },
            _ => false,
        }
    }
}

} // verus!

verus! {

impl Value {
    /// A copy of the value, equal to it in every part.
    pub fn deep_copy(&self) -> (r: Value)
        ensures
            r@ == self@,
        decreases self,
    {
        match self {
            Value::Nothing => Value::Nothing,
            Value::Bool(b) => Value::Bool(*b),
            Value::Int(i) => Value::Int(*i),
            Value::Str(s) => Value::Str(s.clone()),
            Value::Glob(s) => Value::Glob(s.clone()),
            Value::Real(k, ints) => Value::Real(*k, *ints),
            Value::Other(k) => Value::Other(*k),
            Value::List(xs) => {
                proof {
                    lemma_vals_of(xs@);
                }
                let mut out: Vec<Value> = Vec::new();
                let mut i: usize = 0;
                while i < xs.len()
                    invariant
                        *self == Value::List(*xs),
                        i <= xs.len(),
                        out@.len() == i,
                        forall|k: int| 0 <= k < i ==> #[trigger] val_of(out@[k]) == val_of(xs@[k]),
                    decreases xs.len() - i,
                {
                    proof {
                        assert(decreases_to!(*self => (*self)->List_0));
                        assert(decreases_to!(*xs => xs@));
                        assert(decreases_to!(xs@ => xs@[i as int]));
                    }
                    let c = xs[i].deep_copy();
                    out.push(c);
                    i = i + 1;
                }
                proof {
                    lemma_vals_of(out@);
                    assert(vals_of(out@) =~= vals_of(xs@));
                }
                Value::List(out)
            },
            Value::Record(xs) => {
                proof {
                    lemma_cols_of(xs@);
                }
                let mut out: Vec<(String, Value)> = Vec::new();
                let mut i: usize = 0;
                while i < xs.len()
                    invariant
                        *self == Value::Record(*xs),
                        i <= xs.len(),
                        out@.len() == i,
                        forall|k: int|
                            0 <= k < i ==> #[trigger] out@[k].0@ == xs@[k].0@ && val_of(out@[k].1)
                                == val_of(xs@[k].1),
                    decreases xs.len() - i,
                {
                    proof {
                        assert(decreases_to!(*self => (*self)->Record_0));
                        assert(decreases_to!(*xs => xs@));
                        assert(decreases_to!(xs@ => xs@[i as int]));
                        assert(decreases_to!(xs@[i as int] => xs@[i as int].1));
                    }
                    let name = xs[i].0.clone();
                    let c = xs[i].1.deep_copy();
                    out.push((name, c));
                    i = i + 1;
                }
                proof {
                    lemma_cols_of(out@);
                    assert(cols_of(out@) =~= cols_of(xs@));
                }
                Value::Record(out)
            },
        }
    }
}

impl Clone for Value {
    fn clone(&self) -> (r: Self)
        ensures
            r@ == self@,
    {
        self.deep_copy()
    }
}

impl PartialEq for Value {
    fn eq(&self, other: &Value) -> (r: bool) {
        self.equals(other)
    }
}

impl vstd::std_specs::cmp::PartialEqSpecImpl for Value {
    open spec fn obeys_eq_spec() -> bool {
        true
    }

    open spec fn eq_spec(&self, other: &Value) -> bool {
        val_eq(self@, other@)
    }
}

} // verus!

verus! {

/// A copy of a list of values, equal item by item.
pub fn clone_values(v: &Vec<Value>) -> (r: Vec<Value>)
    ensures
        vals_of(r@) == vals_of(v@),
{
    proof {
        lemma_vals_of(v@);
    }
    let mut out: Vec<Value> = Vec::new();
    let mut i: usize = 0;
    while i < v.len()
        invariant
            i <= v.len(),
            out@.len() == i,
            forall|k: int| 0 <= k < i ==> #[trigger] val_of(out@[k]) == val_of(v@[k]),
        decreases v.len() - i,
    {
        out.push(v[i].clone());
        i = i + 1;
    }
    proof {
        lemma_vals_of(out@);
        assert(vals_of(out@) =~= vals_of(v@));
    }
    out
}

} // verus!

verus! {

/// A value holds no `Real` atom: equality among such values is an equivalence.
pub open spec fn real_free(v: Val) -> bool
    decreases v,
{
    match v {
        Val::Real(_, _) => false,
        Val::List(xs) => forall|i: int| 0 <= i < xs.len() ==> real_free(#[trigger] xs[i]),
        Val::Record(xs) => forall|i: int| 0 <= i < xs.len() ==> real_free(#[trigger] xs[i].1),
        _ => true,
    }
}

proof fn lemma_partner_at(cols: Seq<(Seq<char>, Val)>, name: Seq<char>, k: nat)
    requires
        0 <= partner(cols, name, k),
    ensures
        partner(cols, name, k) < cols.len(),
        cols[partner(cols, name, k)].0 == name,
        count_name(cols, name, partner(cols, name, k)) == k,
{
}

proof fn lemma_partner_is(cols: Seq<(Seq<char>, Val)>, j: int)
    requires
        0 <= j < cols.len(),
    ensures
        partner(cols, cols[j].0, count_name(cols, cols[j].0, j)) == j,
{
    let name = cols[j].0;
    let k = count_name(cols, name, j);
    let p = partner(cols, name, k);
    assert(0 <= j < cols.len() && cols[j].0 == name && count_name(cols, name, j) == k);
    lemma_count_name_unique(cols, name, j, p);
}

/// An injective map of `[0, n)` into itself reaches every index.
pub proof fn lemma_injective_onto(n: int, f: spec_fn(int) -> int, j: int)
    requires
        0 <= j < n,
        forall|i: int| 0 <= i < n ==> 0 <= #[trigger] f(i) < n,
        forall|a: int, b: int| 0 <= a < n && 0 <= b < n && #[trigger] f(a) == #[trigger] f(b) ==> a == b,
    ensures
        exists|i: int| 0 <= i < n && #[trigger] f(i) == j,
{
    let x = vstd::set_lib::set_int_range(0, n);
    vstd::set_lib::lemma_int_range(0, n);
    let y = x.map(f);
    assert(vstd::relations::injective_on(f, x));
    vstd::set_lib::lemma_map_size(x, y, f);
    if !(exists|i: int| 0 <= i < n && #[trigger] f(i) == j) {
        let rest = x.remove(j);
        assert(y.subset_of(rest)) by {
            assert forall|m: int| y.contains(m) implies rest.contains(m) by {
                let i = choose|i: int| x.contains(i) && f(i) == m;
            }
        }
        vstd::set_lib::lemma_len_subset(y, rest);
    }
}

/// Equality of values is symmetric.
pub proof fn lemma_val_eq_symmetric(a: Val, b: Val)
    requires
        val_eq(a, b),
    ensures
        val_eq(b, a),
    decreases a,
{
    match (a, b) {
        (Val::List(xs), Val::List(ys)) => {
            assert forall|i: int| 0 <= i < ys.len() implies val_eq(#[trigger] ys[i], xs[i]) by {
                assert(decreases_to!(a => xs[i]));
                lemma_val_eq_symmetric(xs[i], ys[i]);
            }
        },
        (Val::Record(xs), Val::Record(ys)) => {
            let n = xs.len() as int;
            let f = |i: int| partner(ys, xs[i].0, count_name(xs, xs[i].0, i));
            assert forall|i: int| 0 <= i < n implies 0 <= #[trigger] f(i) < n by {
                assert(col_ok(xs, ys, i));
                lemma_partner_at(ys, xs[i].0, count_name(xs, xs[i].0, i));
            }
            assert forall|p: int, q: int| 0 <= p < n && 0 <= q < n && #[trigger] f(p) == #[trigger] f(q) implies p
                == q by {
                lemma_partner_at(ys, xs[p].0, count_name(xs, xs[p].0, p));
                lemma_partner_at(ys, xs[q].0, count_name(xs, xs[q].0, q));
                lemma_count_name_unique(xs, xs[p].0, p, q);
            }
            assert forall|j: int| 0 <= j < ys.len() implies {
                let i = partner(xs, (#[trigger] ys[j]).0, count_name(ys, ys[j].0, j));
                0 <= i && val_eq(ys[j].1, xs[i].1)
            } by {
                lemma_injective_onto(n, f, j);
                let i = choose|i: int| 0 <= i < n && #[trigger] f(i) == j;
                assert(col_ok(xs, ys, i));
                lemma_partner_at(ys, xs[i].0, count_name(xs, xs[i].0, i));
                lemma_partner_is(xs, i);
                assert(decreases_to!(a => xs[i].1));
                lemma_val_eq_symmetric(xs[i].1, ys[j].1);
            }
        },
        _ => {},
    }
}

/// Equality of values holding no `Real` atom is transitive.
pub proof fn lemma_val_eq_transitive(a: Val, b: Val, c: Val)
    requires
        val_eq(a, b),
        val_eq(b, c),
        real_free(a),
        real_free(b),
        real_free(c),
    ensures
        val_eq(a, c),
    decreases a,
{
    match (a, b, c) {
        (Val::List(xs), Val::List(ys), Val::List(zs)) => {
            assert forall|i: int| 0 <= i < xs.len() implies val_eq(#[trigger] xs[i], zs[i]) by {
                assert(decreases_to!(a => xs[i]));
                assert(val_eq(ys[i], zs[i]));
                lemma_val_eq_transitive(xs[i], ys[i], zs[i]);
            }
        },
        (Val::Record(xs), Val::Record(ys), Val::Record(zs)) => {
            assert forall|i: int| 0 <= i < xs.len() implies {
                let l = partner(zs, (#[trigger] xs[i]).0, count_name(xs, xs[i].0, i));
                0 <= l && val_eq(xs[i].1, zs[l].1)
            } by {
                assert(col_ok(xs, ys, i));
                let j = partner(ys, xs[i].0, count_name(xs, xs[i].0, i));
                lemma_partner_at(ys, xs[i].0, count_name(xs, xs[i].0, i));
                assert(col_ok(ys, zs, j));
                let l = partner(zs, ys[j].0, count_name(ys, ys[j].0, j));
                assert(decreases_to!(a => xs[i].1));
                assert(real_free(xs[i].1) && real_free(ys[j].1) && real_free(zs[l].1));
                lemma_val_eq_transitive(xs[i].1, ys[j].1, zs[l].1);
            }
        },
        _ => {},
    }
}

} // verus!

verus! {

/// The columns of a record without `Real` atoms hold none either.
pub proof fn lemma_real_free_column(cols: Seq<(Seq<char>, Val)>, i: int)
    requires
        real_free(Val::Record(cols)),
        0 <= i < cols.len(),
    ensures
        real_free(cols[i].1),
{
    let v = Val::Record(cols);
    match v {
        Val::Record(xs) => {
            assert(xs == cols);
            assert(real_free(xs[i].1));
        },
        _ => {},
    }
}

} // verus!
