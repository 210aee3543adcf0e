use vstd::prelude::*;

use crate::substitution::{lookup, Bindings, Substitution};
use crate::term::{add_new, collect_vars, names_of, occurrences, Term};
use crate::unify::{
    agrees, all_bound, bindings_real_free, extends, lemma_unify_agrees, lemma_unify_binds_all,
    lemma_unify_real_free, lemma_unify_extends, lemma_unify_new_names, lemma_unify_stable,
    new_names_within, unify, unify_spec, UnifyErr, UnifyError,
};
use crate::value::{cols_of, lemma_cols_of, lemma_vals_of, real_free, val_eq, val_of, vals_of, Val, Value};

verus! {

/// A source as the search sees it: a pattern and the rows it is matched against.
pub type SourceV = (Term, Seq<Val>);

pub open spec fn sources_view(v: Seq<(Term, Vec<Value>)>) -> Seq<SourceV> {
    v.map_values(|x: (Term, Vec<Value>)| (x.0, vals_of(x.1@)))
}

/// One raw solution: the bindings of a match, or the structural error that ended the search.
pub type Out = Result<Bindings, UnifyErr>;

pub open spec fn has_err(a: Seq<Out>) -> bool {
    exists|i: int| 0 <= i < a.len() && #[trigger] a[i] is Err
}

/// `a` followed by `b`, unless `a` ended in an error, which stops everything.
pub open spec fn join(a: Seq<Out>, b: Seq<Out>) -> Seq<Out> {
    if has_err(a) {
        a
    } else {
        a + b
    }
}

/// The solutions found from the search state "at source `d`, trying rows from
/// `r` on, with bindings `s`", in depth-first order: for each row in turn, if
/// it unifies, all solutions below it, then the rest of the rows. A structural
/// error ends the whole search.
pub open spec fn explore(srcs: Seq<SourceV>, d: int, r: int, s: Bindings) -> Seq<Out>
    decreases srcs.len() - d, (if 0 <= d < srcs.len() { srcs[d].1.len() - r } else { 0 }),
{
    if d < 0 || r < 0 {
        Seq::empty()
    } else if d >= srcs.len() {
        seq![Ok(s)]
    } else if r >= srcs[d].1.len() {
        Seq::empty()
    } else {
        let (res, s1) = unify_spec(srcs[d].0, srcs[d].1[r], s);
        match res {
            Ok(true) => join(explore(srcs, d + 1, 0, s1), explore(srcs, d, r + 1, s)),
            Ok(false) => explore(srcs, d, r + 1, s),
            Err(e) => seq![Err(e)],
        }
    }
}

/// How many steps the search takes from a state: a measure that each step lowers.
pub open spec fn steps(srcs: Seq<SourceV>, d: int, r: int, s: Bindings) -> nat
    decreases srcs.len() - d, (if 0 <= d < srcs.len() { srcs[d].1.len() - r } else { 0 }),
{
    if d < 0 || r < 0 {
        1
    } else if d >= srcs.len() {
        1
    } else if r >= srcs[d].1.len() {
        1
    } else {
        let (res, s1) = unify_spec(srcs[d].0, srcs[d].1[r], s);
        1 + (if res == Ok::<bool, UnifyErr>(true) {
            steps(srcs, d + 1, 0, s1)
        } else {
            0
        }) + steps(srcs, d, r + 1, s)
    }
}

/// A search frame: the source it is at, the next row to try, and its bindings.
pub type FrameV = (int, int, Bindings);

/// The solutions still to come from a stack of frames: the top frame's first.
pub open spec fn remaining(srcs: Seq<SourceV>, fs: Seq<FrameV>) -> Seq<Out>
    decreases fs.len(),
{
    if fs.len() == 0 {
        Seq::empty()
    } else {
        join(explore(srcs, fs.last().0, fs.last().1, fs.last().2), remaining(srcs, fs.drop_last()))
    }
}

pub open spec fn work(srcs: Seq<SourceV>, fs: Seq<FrameV>) -> nat
    decreases fs.len(),
{
    if fs.len() == 0 {
        0
    } else {
        steps(srcs, fs.last().0, fs.last().1, fs.last().2) + work(srcs, fs.drop_last())
    }
}

/// Variable names of all patterns, in the order the sources were given.
pub open spec fn source_occurrences(srcs: Seq<SourceV>) -> Seq<Seq<char>>
    decreases srcs.len(),
{
    if srcs.len() == 0 {
        Seq::empty()
    } else {
        source_occurrences(srcs.drop_last()) + occurrences(srcs.last().0)
    }
}

/// Declaration order: each variable once, by its first appearance across the
/// patterns, left to right, in the order the sources were given.
pub open spec fn declaration_order_spec(srcs: Seq<SourceV>) -> Seq<Seq<char>> {
    add_new(Seq::empty(), source_occurrences(srcs))
}

/// The bindings of the names in `decl` that are bound, in the order of `decl`.
pub open spec fn declared_bindings(decl: Seq<Seq<char>>, s: Bindings) -> Bindings
    decreases decl.len(),
{
    if decl.len() == 0 {
        Seq::empty()
    } else {
        let rest = declared_bindings(decl.drop_last(), s);
        match lookup(s, decl.last()) {
            Some(v) => rest.push((decl.last(), v)),
            None => rest,
        }
    }
}

/// The bindings whose names are not in `decl`, in their order.
pub open spec fn undeclared_bindings(decl: Seq<Seq<char>>, s: Bindings) -> Bindings
    decreases s.len(),
{
    if s.len() == 0 {
        Seq::empty()
    } else {
        let rest = undeclared_bindings(decl, s.drop_last());
        if decl.contains(s.last().0) {
            rest
        } else {
            rest.push(s.last())
        }
    }
}

/// A solution as a record: one column per bound variable, the declared ones
/// first in declaration order, any others after them.
pub open spec fn solution_record(decl: Seq<Seq<char>>, s: Bindings) -> Val {
    Val::Record(declared_bindings(decl, s) + undeclared_bindings(decl, s))
}

pub open spec fn solution_view(decl: Seq<Seq<char>>, o: Out) -> Result<Val, UnifyErr> {
    match o {
        Ok(s) => Ok(solution_record(decl, s)),
        Err(e) => Err(e),
    }
}

pub open spec fn solutions_view(decl: Seq<Seq<char>>, os: Seq<Out>) -> Seq<Result<Val, UnifyErr>> {
    os.map_values(|o: Out| solution_view(decl, o))
}

/// Whether source `i` has the fewest rows, and every source before it more.
pub open spec fn is_first_smallest(srcs: Seq<SourceV>, i: int) -> bool {
    &&& 0 <= i < srcs.len()
    &&& forall|j: int| 0 <= j < srcs.len() ==> srcs[i].1.len() <= #[trigger] srcs[j].1.len()
    &&& forall|j: int| 0 <= j < i ==> srcs[i].1.len() < #[trigger] srcs[j].1.len()
}

/// The index of the first source with the fewest rows.
pub open spec fn first_smallest(srcs: Seq<SourceV>) -> int {
    choose|i: int| #[trigger] is_first_smallest(srcs, i)
}

/// The sources ordered by their number of rows, smallest first; sources with
/// as many rows keep their order.
pub open spec fn by_size(srcs: Seq<SourceV>) -> Seq<SourceV>
    decreases srcs.len(),
{
    if srcs.len() == 0 {
        Seq::empty()
    } else {
        let i = first_smallest(srcs);
        if 0 <= i < srcs.len() {
            seq![srcs[i]] + by_size(srcs.remove(i))
        } else {
            Seq::empty()
        }
    }
}

/// All solutions of a multi-source search, as records: the sources are
/// searched smallest first, and the records' columns follow declaration order.
pub open spec fn search_results(srcs: Seq<SourceV>) -> Seq<Result<Val, UnifyErr>> {
    solutions_view(
        declaration_order_spec(srcs),
        explore(by_size(srcs), 0, 0, Seq::empty()),
    )
}

} // verus!

verus! {

proof fn lemma_sources_view_len(v: Seq<(Term, Vec<Value>)>)
    ensures
        sources_view(v).len() == v.len(),
        forall|i: int| 0 <= i < v.len() ==> #[trigger] sources_view(v)[i] == (v[i].0, vals_of(v[i].1@)),
{
}

/// Variable names in declaration order (see [`declaration_order_spec`]).
fn declaration_order(sources: &Vec<(Term, Vec<Value>)>) -> (r: Vec<String>)
    ensures
        names_of(r@) == declaration_order_spec(sources_view(sources@)),
{
    let ghost sv = sources_view(sources@);
    proof {
        lemma_sources_view_len(sources@);
    }
    let mut seen: Vec<String> = Vec::new();
    let mut i: usize = 0;
    assert(names_of(seen@) =~= Seq::<Seq<char>>::empty());
    assert(sv.take(0) =~= Seq::<SourceV>::empty());
    while i < sources.len()
        invariant
            sv == sources_view(sources@),
            sv.len() == sources@.len(),
            forall|k: int| 0 <= k < sources@.len() ==> #[trigger] sv[k] == (sources@[k].0, vals_of(sources@[k].1@)),
            i <= sources.len(),
            names_of(seen@) == add_new(Seq::empty(), source_occurrences(sv.take(i as int))),
        decreases sources.len() - i,
    {
        proof {
            assert(sv.take(i + 1).drop_last() =~= sv.take(i as int));
            assert(sv.take(i + 1).last() == sv[i as int]);
            crate::term::lemma_add_new_concat(
                Seq::empty(),
                source_occurrences(sv.take(i as int)),
                occurrences(sources@[i as int].0),
            );
        }
        collect_vars(&sources[i].0, &mut seen);
        i = i + 1;
    }
    assert(sv.take(i as int) =~= sv);
    seen
}

/// The index of the first source with the fewest rows.
fn first_smallest_index(rest: &Vec<(Term, Vec<Value>)>) -> (m: usize)
    requires
        rest.len() > 0,
    ensures
        is_first_smallest(sources_view(rest@), m as int),
        first_smallest(sources_view(rest@)) == m,
{
    let ghost rv = sources_view(rest@);
    proof {
        lemma_sources_view_len(rest@);
        lemma_vals_of(rest@[0].1@);
    }
    let mut m: usize = 0;
    let mut i: usize = 1;
    while i < rest.len()
        invariant
            rv == sources_view(rest@),
            rv.len() == rest@.len(),
            forall|k: int| 0 <= k < rest@.len() ==> #[trigger] rv[k] == (rest@[k].0, vals_of(rest@[k].1@)),
            1 <= i <= rest.len(),
            m < i,
            forall|j: int| 0 <= j < i ==> rv[m as int].1.len() <= #[trigger] rv[j].1.len(),
            forall|j: int| 0 <= j < m ==> rv[m as int].1.len() < #[trigger] rv[j].1.len(),
        decreases rest.len() - i,
    {
        proof {
            lemma_vals_of(rest@[i as int].1@);
            lemma_vals_of(rest@[m as int].1@);
        }
        if rest[i].1.len() < rest[m].1.len() {
            m = i;
        }
        i = i + 1;
    }
    proof {
        let c = first_smallest(rv);
        assert(is_first_smallest(rv, m as int));
        assert(is_first_smallest(rv, c));
        if c < m {
            assert(rv[m as int].1.len() < rv[c].1.len());
        } else if m < c {
            assert(rv[c].1.len() < rv[m as int].1.len());
        }
    }
    m
}

/// The sources ordered by number of rows, smallest first (see [`by_size`]).
fn sort_by_size(sources: Vec<(Term, Vec<Value>)>) -> (r: Vec<(Term, Vec<Value>)>)
    ensures
        sources_view(r@) == by_size(sources_view(sources@)),
{
    let ghost orig = sources_view(sources@);
    let mut rest = sources;
    let mut out: Vec<(Term, Vec<Value>)> = Vec::new();
    assert(sources_view(out@) =~= Seq::<SourceV>::empty());
    assert(by_size(orig) =~= sources_view(out@) + by_size(sources_view(rest@)));
    while rest.len() > 0
        invariant
            by_size(orig) == sources_view(out@) + by_size(sources_view(rest@)),
        decreases rest.len(),
    {
        let m = first_smallest_index(&rest);
        let ghost rv = sources_view(rest@);
        let ghost before = out@;
        proof {
            lemma_sources_view_len(rest@);
        }
        let x = rest.remove(m);
        out.push(x);
        proof {
            assert(sources_view(rest@) =~= rv.remove(m as int));
            assert(sources_view(out@) =~= sources_view(before).push(rv[m as int]));
            assert(by_size(rv) == seq![rv[m as int]] + by_size(rv.remove(m as int)));
            assert(by_size(orig) =~= sources_view(out@) + by_size(sources_view(rest@)));
        }
    }
    proof {
        lemma_sources_view_len(rest@);
        assert(sources_view(rest@) =~= Seq::<SourceV>::empty());
    }
    assert(by_size(sources_view(rest@)) =~= Seq::<SourceV>::empty());
    assert(by_size(orig) =~= sources_view(out@));
    out
}

} // verus!

verus! {

/// The record of a solution (see [`solution_record`]).
fn sub_to_record(sub: &Substitution, decl: &Vec<String>) -> (r: Value)
    ensures
        r@ == solution_record(names_of(decl@), sub@),
{
    let ghost dn = names_of(decl@);
    let mut out: Vec<(String, Value)> = Vec::new();
    let mut i: usize = 0;
    assert(cols_of(out@) =~= Seq::<(Seq<char>, Val)>::empty());
    assert(dn.take(0) =~= Seq::<Seq<char>>::empty());
    while i < decl.len()
        invariant
            dn == names_of(decl@),
            dn.len() == decl@.len(),
            i <= decl.len(),
            cols_of(out@) == declared_bindings(dn.take(i as int), sub@),
        decreases decl.len() - i,
    {
        let ghost before = out@;
        proof {
            assert(dn.take(i + 1).drop_last() =~= dn.take(i as int));
            assert(dn.take(i + 1).last() == decl@[i as int]@);
        }
        match sub.get(decl[i].as_str()) {
            Some(v) => {
                out.push((decl[i].clone(), v.clone()));
                assert(out@.drop_last() =~= before);
            },
            None => {},
        }
        i = i + 1;
    }
    assert(dn.take(i as int) =~= dn);
    let ghost declared = cols_of(out@);
    let bs = sub.bindings();
    let ghost bv = cols_of(bs@);
    proof {
        lemma_cols_of(bs@);
    }
    let mut j: usize = 0;
    assert(bv.take(0) =~= Seq::<(Seq<char>, Val)>::empty());
    assert(cols_of(out@) =~= declared + undeclared_bindings(dn, bv.take(0)));
    while j < bs.len()
        invariant
            dn == names_of(decl@),
            bv == cols_of(bs@),
            bv.len() == bs@.len(),
            forall|k: int| 0 <= k < bs@.len() ==> #[trigger] bv[k] == (bs@[k].0@, val_of(bs@[k].1)),
            j <= bs.len(),
            cols_of(out@) == declared + undeclared_bindings(dn, bv.take(j as int)),
        decreases bs.len() - j,
    {
        let ghost before = out@;
        proof {
            assert(bv.take(j + 1).drop_last() =~= bv.take(j as int));
            assert(bv.take(j + 1).last() == bv[j as int]);
        }
        if !crate::term::contains_name(decl, &bs[j].0) {
            out.push((bs[j].0.clone(), bs[j].1.clone()));
            assert(out@.drop_last() =~= before);
            assert(cols_of(out@) =~= declared + undeclared_bindings(dn, bv.take(j + 1)));
        }
        j = j + 1;
    }
    assert(bv.take(j as int) =~= bv);
    assert(bv == sub@);
    Value::Record(out)
}

} // verus!

verus! {

pub proof fn lemma_has_err_concat(a: Seq<Out>, b: Seq<Out>)
    ensures
        has_err(a + b) == (has_err(a) || has_err(b)),
{
    if has_err(a + b) {
        let i = choose|i: int| 0 <= i < (a + b).len() && #[trigger] (a + b)[i] is Err;
        if i < a.len() {
            assert(a[i] is Err);
        } else {
            assert(b[i - a.len()] is Err);
        }
    }
    if has_err(a) {
        let i = choose|i: int| 0 <= i < a.len() && #[trigger] a[i] is Err;
        assert((a + b)[i] is Err);
    }
    if has_err(b) {
        let i = choose|i: int| 0 <= i < b.len() && #[trigger] b[i] is Err;
        assert((a + b)[a.len() + i] is Err);
    }
}

pub proof fn lemma_join_assoc(a: Seq<Out>, b: Seq<Out>, c: Seq<Out>)
    ensures
        join(join(a, b), c) == join(a, join(b, c)),
{
    lemma_has_err_concat(a, b);
    lemma_has_err_concat(b, c);
    if !has_err(a) && !has_err(b) {
        assert((a + b) + c =~= a + (b + c));
    }
}

/// What a solution or error given by the search says.
pub open spec fn item_view(x: Result<Value, UnifyError>) -> Result<Val, UnifyErr> {
    match x {
        Ok(v) => Ok(v@),
        Err(e) => Err(e@),
    }
}

struct SearchFrame {
    depth: usize,
    row_index: usize,
    sub: Substitution,
}

spec fn frame_view(f: SearchFrame) -> FrameV {
    (f.depth as int, f.row_index as int, f.sub@)
}

spec fn frames_view(st: Seq<SearchFrame>) -> Seq<FrameV> {
    st.map_values(|f: SearchFrame| frame_view(f))
}

/// Depth-first backtracking search across several sources, one solution at a
/// time.
///
/// Each solution is a record whose columns are the bound variables in
/// declaration order. The search is lazy: `next` computes one solution, so a
/// caller that wants the first `n` solutions does only the work for those.
pub struct SearchIterator {
    sources: Vec<(Term, Vec<Value>)>,
    stack: Vec<SearchFrame>,
    decl_order: Vec<String>,
}

impl SearchIterator {
    /// The sources in search order.
    pub closed spec fn srcs(&self) -> Seq<SourceV> {
        sources_view(self.sources@)
    }

    /// The variable names in declaration order.
    pub closed spec fn decl(&self) -> Seq<Seq<char>> {
        names_of(self.decl_order@)
    }

    pub closed spec fn wf(&self) -> bool {
        forall|i: int| 0 <= i < self.stack@.len() ==> (#[trigger] self.stack@[i]).sub.wf()
    }

    /// The solutions that `next` has still to give, in order.
    pub closed spec fn pending(&self) -> Seq<Result<Val, UnifyErr>> {
        solutions_view(self.decl(), remaining(self.srcs(), frames_view(self.stack@)))
    }

    /// A search over `sources`, each a pattern and its rows. The variable
    /// declaration order is taken from the sources as given; the search then
    /// visits the sources smallest first, to prune early.
    pub fn new(sources: Vec<(Term, Vec<Value>)>) -> (r: Self)
        ensures
            r.wf(),
            r.pending() == search_results(sources_view(sources@)),
    {
        let decl_order = declaration_order(&sources);
        let sorted = sort_by_size(sources);
        let mut stack: Vec<SearchFrame> = Vec::new();
        let sub = Substitution::new();
        stack.push(SearchFrame { depth: 0, row_index: 0, sub });
        let r = SearchIterator { sources: sorted, stack, decl_order };
        proof {
            let fs = frames_view(r.stack@);
            assert(fs =~= seq![(0int, 0int, Seq::<(Seq<char>, Val)>::empty())]);
            assert(fs.drop_last() =~= Seq::<FrameV>::empty());
            let e = explore(r.srcs(), 0, 0, Seq::empty());
            assert(e + Seq::<Out>::empty() =~= e);
            assert(remaining(r.srcs(), fs.drop_last()) == Seq::<Out>::empty());
            assert(fs.last() == (0int, 0int, Seq::<(Seq<char>, Val)>::empty()));
            assert(remaining(r.srcs(), fs) == join(e, Seq::empty()));
            assert(remaining(r.srcs(), fs) == e);
        }
        r
    }

    /// The next solution, or `None` when the search is over. A structural
    /// error is given once and ends the search.
    pub fn next(&mut self) -> (r: Option<Result<Value, UnifyError>>)
        requires
            old(self).wf(),
        ensures
            final(self).wf(),
            old(self).pending().len() == 0 ==> r is None && final(self).pending() == old(self).pending(),
            old(self).pending().len() > 0 ==> (r matches Some(x) && item_view(x) == old(
                self,
            ).pending()[0]),
            old(self).pending().len() > 0 ==> final(self).pending() == old(self).pending().drop_first(),
    {
        let ghost srcs = self.srcs();
        let ghost decl = self.decl();
        let ghost p0 = remaining(srcs, frames_view(self.stack@));
        proof {
            lemma_sources_view_len(self.sources@);
        }
        while self.stack.len() > 0
            invariant
                self.wf(),
                srcs == self.srcs(),
                decl == self.decl(),
                srcs.len() == self.sources@.len(),
                forall|k: int|
                    0 <= k < self.sources@.len() ==> #[trigger] srcs[k] == (
                        self.sources@[k].0,
                        vals_of(self.sources@[k].1@),
                    ),
                remaining(srcs, frames_view(self.stack@)) == p0,
                p0 == remaining(old(self).srcs(), frames_view(old(self).stack@)),
                old(self).srcs() == srcs,
                old(self).decl() == decl,
            decreases work(srcs, frames_view(self.stack@)),
        {
            let ghost fs = frames_view(self.stack@);
            let frame = match self.stack.pop() {
                Some(f) => f,
                None => {
                    return None;
                },
            };
            let ghost rest = frames_view(self.stack@);
            proof {
                assert(rest =~= fs.drop_last());
                assert(fs.last() == frame_view(frame));
                assert(frame.sub.wf());
            }
            if frame.depth >= self.sources.len() {
                let rec = sub_to_record(&frame.sub, &self.decl_order);
                proof {
                    let e = explore(srcs, frame.depth as int, frame.row_index as int, frame.sub@);
                    assert(e == seq![Ok::<Bindings, UnifyErr>(frame.sub@)]);
                    assert(!has_err(e));
                    assert(p0 == e + remaining(srcs, rest));
                    assert(solutions_view(decl, p0)[0] == solution_view(decl, e[0]));
                    assert(solutions_view(decl, p0).drop_first() =~= solutions_view(decl, remaining(srcs, rest)));
                }
                return Some(Ok(rec));
            }
            let d = frame.depth;
            let row = frame.row_index;
            if row >= self.sources[d].1.len() {
                proof {
                    lemma_vals_of(self.sources@[d as int].1@);
                    assert(explore(srcs, d as int, row as int, frame.sub@) =~= Seq::<Out>::empty());
                    assert(remaining(srcs, fs) =~= remaining(srcs, rest));
                }
                continue;
            }
            proof {
                lemma_vals_of(self.sources@[d as int].1@);
            }
            let mut new_sub = frame.sub.clone();
            let res = unify(&self.sources[d].0, &self.sources[d].1[row], &mut new_sub);
            let ghost s = frame.sub@;
            let ghost s1 = new_sub@;
            let ghost e1 = explore(srcs, d + 1, 0, s1);
            let ghost e2 = explore(srcs, d as int, row + 1, s);
            proof {
                assert(srcs[d as int].1[row as int] == self.sources@[d as int].1@[row as int]@);
                assert(unify_spec(srcs[d as int].0, srcs[d as int].1[row as int], s) == (
                    crate::unify::result_view(res),
                    s1,
                ));
                assert(fs.last() == (d as int, row as int, s));
                assert(p0 == join(explore(srcs, d as int, row as int, s), remaining(srcs, rest)));
                assert(work(srcs, fs) == steps(srcs, d as int, row as int, s) + work(srcs, rest));
            }
            self.stack.push(SearchFrame { depth: d, row_index: row + 1, sub: frame.sub });
            match res {
                Ok(true) => {
                    self.stack.push(SearchFrame { depth: d + 1, row_index: 0, sub: new_sub });
                    proof {
                        let nf = frames_view(self.stack@);
                        assert(nf.drop_last().drop_last() =~= rest);
                        assert(nf.drop_last().last() == (d as int, row + 1, s));
                        assert(nf.last() == (d + 1, 0int, s1));
                        lemma_join_assoc(e1, e2, remaining(srcs, rest));
                        assert(explore(srcs, d as int, row as int, s) == join(e1, e2));
                        assert(remaining(srcs, nf.drop_last()) == join(e2, remaining(srcs, rest)));
                        assert(remaining(srcs, nf) == join(e1, remaining(srcs, nf.drop_last())));
                        assert(steps(srcs, d as int, row as int, s) == 1 + steps(srcs, d + 1, 0, s1) + steps(
                            srcs,
                            d as int,
                            row + 1,
                            s,
                        ));
                        assert(work(srcs, nf.drop_last()) == steps(srcs, d as int, row + 1, s) + work(srcs, rest));
                        assert(work(srcs, nf) == steps(srcs, d + 1, 0, s1) + work(srcs, nf.drop_last()));
                    }
                },
                Ok(false) => {
                    proof {
                        let nf = frames_view(self.stack@);
                        assert(nf.drop_last() =~= rest);
                        assert(nf.last() == (d as int, row + 1, s));
                        assert(explore(srcs, d as int, row as int, s) == e2);
                        assert(remaining(srcs, nf) == join(e2, remaining(srcs, rest)));
                        assert(steps(srcs, d as int, row as int, s) == 1 + steps(srcs, d as int, row + 1, s));
                        assert(work(srcs, nf) == steps(srcs, d as int, row + 1, s) + work(srcs, rest));
                    }
                },
                Err(e) => {
                    self.stack.clear();
                    proof {
                        let ex = explore(srcs, d as int, row as int, s);
                        assert(ex == seq![Err::<Bindings, UnifyErr>(e@)]);
                        assert(ex[0] is Err);
                        assert(has_err(ex));
                        assert(p0 == ex);
                        assert(frames_view(self.stack@) =~= Seq::<FrameV>::empty());
                        assert(solutions_view(decl, p0).drop_first() =~= Seq::<Result<Val, UnifyErr>>::empty());
                    }
                    return Some(Err(e));
                },
            }
        }
        proof {
            assert(frames_view(self.stack@) =~= Seq::<FrameV>::empty());
        }
        None
    }
}

} // verus!

verus! {

/// Pattern `p` accepts `row` under the bindings `s`, binding nothing more.
pub open spec fn accepts(p: Term, row: Val, s: Bindings) -> bool {
    unify_spec(p, row, s) == (Ok::<bool, UnifyErr>(true), s)
}

/// Source `k` has a row that its pattern accepts under `s`.
pub open spec fn source_satisfied(srcs: Seq<SourceV>, k: int, s: Bindings) -> bool {
    exists|r: int| 0 <= r < srcs[k].1.len() && #[trigger] accepts(srcs[k].0, srcs[k].1[r], s)
}

/// Every source from `d` on has a row that its pattern accepts under `s`.
pub open spec fn satisfied_from(srcs: Seq<SourceV>, d: int, s: Bindings) -> bool {
    forall|k: int| d <= k < srcs.len() ==> #[trigger] source_satisfied(srcs, k, s)
}

proof fn lemma_join_ok(a: Seq<Out>, b: Seq<Out>, i: int)
    requires
        0 <= i < join(a, b).len(),
    ensures
        (0 <= i < a.len() && join(a, b)[i] == a[i]) || (0 <= i - a.len() < b.len() && join(a, b)[i] == b[
            i - a.len()
        ]),
{
}

/// Each set of bindings the depth-first search yields from a state extends the
/// state's bindings, and under it every source from the state's on has a row
/// that its pattern accepts.
proof fn lemma_explore_sound(srcs: Seq<SourceV>, d: int, r: int, s: Bindings)
    ensures
        forall|i: int|
            0 <= i < explore(srcs, d, r, s).len() && #[trigger] explore(srcs, d, r, s)[i] is Ok ==> {
                let f = explore(srcs, d, r, s)[i]->Ok_0;
                extends(s, f) && satisfied_from(srcs, d, f)
            },
    decreases srcs.len() - d, (if 0 <= d < srcs.len() { srcs[d].1.len() - r } else { 0 }),
{
    if d < 0 || r < 0 {
    } else if d >= srcs.len() {
        assert(s.subrange(0, s.len() as int) =~= s);
    } else if r >= srcs[d].1.len() {
    } else {
        let (res, s1) = unify_spec(srcs[d].0, srcs[d].1[r], s);
        lemma_explore_sound(srcs, d, r + 1, s);
        match res {
            Ok(true) => {
                lemma_explore_sound(srcs, d + 1, 0, s1);
                lemma_unify_extends(srcs[d].0, srcs[d].1[r], s);
                let a = explore(srcs, d + 1, 0, s1);
                let b = explore(srcs, d, r + 1, s);
                assert forall|i: int| 0 <= i < explore(srcs, d, r, s).len() && #[trigger] explore(
                    srcs,
                    d,
                    r,
                    s,
                )[i] is Ok implies {
                    let f = explore(srcs, d, r, s)[i]->Ok_0;
                    extends(s, f) && satisfied_from(srcs, d, f)
                } by {
                    lemma_join_ok(a, b, i);
                    let f = explore(srcs, d, r, s)[i]->Ok_0;
                    if 0 <= i < a.len() && join(a, b)[i] == a[i] {
                        assert(a[i] is Ok);
                        assert(extends(s1, f) && satisfied_from(srcs, d + 1, f));
                        crate::unify::lemma_extends_trans(s, s1, f);
                        lemma_unify_stable(srcs[d].0, srcs[d].1[r], s, f);
                        assert(accepts(srcs[d].0, srcs[d].1[r], f));
                        assert(source_satisfied(srcs, d, f));
                        assert forall|k: int| d <= k < srcs.len() implies #[trigger] source_satisfied(srcs, k, f) by {
                            if k > d {
                                assert(source_satisfied(srcs, k, f));
                            }
                        }
                    } else {
                        assert(b[i - a.len()] is Ok);
                    }
                }
            },
            _ => {},
        }
    }
}

proof fn lemma_smallest_prefix(srcs: Seq<SourceV>, n: int) -> (i: int)
    requires
        0 < n <= srcs.len(),
    ensures
        0 <= i < n,
        forall|j: int| 0 <= j < n ==> srcs[i].1.len() <= #[trigger] srcs[j].1.len(),
        forall|j: int| 0 <= j < i ==> srcs[i].1.len() < #[trigger] srcs[j].1.len(),
    decreases n,
{
    if n == 1 {
        0
    } else {
        let i = lemma_smallest_prefix(srcs, n - 1);
        if srcs[n - 1].1.len() < srcs[i].1.len() {
            n - 1
        } else {
            i
        }
    }
}

proof fn lemma_first_smallest(srcs: Seq<SourceV>)
    requires
        srcs.len() > 0,
    ensures
        is_first_smallest(srcs, first_smallest(srcs)),
{
    let i = lemma_smallest_prefix(srcs, srcs.len() as int);
    assert(is_first_smallest(srcs, i));
}

/// Ordering the sources by size keeps every source.
proof fn lemma_by_size_keeps(srcs: Seq<SourceV>, k: int)
    requires
        0 <= k < srcs.len(),
    ensures
        exists|j: int| 0 <= j < by_size(srcs).len() && #[trigger] by_size(srcs)[j] == srcs[k],
    decreases srcs.len(),
{
    lemma_first_smallest(srcs);
    let i = first_smallest(srcs);
    let rest = srcs.remove(i);
    if k == i {
        assert(by_size(srcs)[0] == srcs[k]);
    } else {
        let k2 = if k < i { k } else { k - 1 };
        assert(rest[k2] == srcs[k]);
        lemma_by_size_keeps(rest, k2);
        let j = choose|j: int| 0 <= j < by_size(rest).len() && #[trigger] by_size(rest)[j] == rest[k2];
        assert(by_size(srcs)[j + 1] == srcs[k]);
    }
}

/// Search soundness: every solution the search gives is a combination that all
/// the patterns accept. For each solution record there are bindings whose
/// record it is, under which every source has a row that its pattern accepts
/// without binding anything more.
pub proof fn lemma_search_sound(srcs: Seq<SourceV>, i: int)
    requires
        0 <= i < search_results(srcs).len(),
        search_results(srcs)[i] is Ok,
    ensures
        exists|s: Bindings|
            #![trigger solution_record(declaration_order_spec(srcs), s)]
            search_results(srcs)[i] == Ok::<Val, UnifyErr>(solution_record(declaration_order_spec(srcs), s))
                && forall|k: int| 0 <= k < srcs.len() ==> #[trigger] source_satisfied(srcs, k, s),
{
    let sorted = by_size(srcs);
    let outs = explore(sorted, 0, 0, Seq::empty());
    lemma_explore_sound(sorted, 0, 0, Seq::empty());
    assert(outs[i] is Ok);
    let f = outs[i]->Ok_0;
    assert(satisfied_from(sorted, 0, f));
    assert forall|k: int| 0 <= k < srcs.len() implies #[trigger] source_satisfied(srcs, k, f) by {
        lemma_by_size_keeps(srcs, k);
        let j = choose|j: int| 0 <= j < sorted.len() && #[trigger] sorted[j] == srcs[k];
        assert(source_satisfied(sorted, j, f));
        let r = choose|r: int| 0 <= r < sorted[j].1.len() && #[trigger] accepts(sorted[j].0, sorted[j].1[r], f);
        assert(accepts(srcs[k].0, srcs[k].1[r], f));
    }
    assert(search_results(srcs)[i] == Ok::<Val, UnifyErr>(solution_record(declaration_order_spec(srcs), f)));
}

/// With no sources, the search gives exactly one solution: the empty record.
pub proof fn lemma_search_no_sources(srcs: Seq<SourceV>)
    requires
        srcs.len() == 0,
    ensures
        search_results(srcs) == seq![Ok::<Val, UnifyErr>(Val::Record(Seq::empty()))],
{
    assert(by_size(srcs) =~= Seq::<SourceV>::empty());
    let decl = declaration_order_spec(srcs);
    let none: Bindings = Seq::empty();
    assert(declared_bindings(decl, none) =~= Seq::<(Seq<char>, Val)>::empty()) by {
        lemma_declared_none(decl);
    }
    assert(undeclared_bindings(decl, none) =~= Seq::<(Seq<char>, Val)>::empty());
    assert(search_results(srcs) =~= seq![Ok::<Val, UnifyErr>(Val::Record(Seq::empty()))]);
}

proof fn lemma_declared_none(decl: Seq<Seq<char>>)
    ensures
        declared_bindings(decl, Seq::empty()) == Seq::<(Seq<char>, Val)>::empty(),
    decreases decl.len(),
{
    if decl.len() > 0 {
        lemma_declared_none(decl.drop_last());
    }
}

/// The patterns of sources `d..` unified in turn with the rows `rows[d..]`,
/// starting from `s`: the bindings made, or `None` when one does not match.
pub open spec fn unify_chain(srcs: Seq<SourceV>, rows: Seq<int>, d: int, s: Bindings) -> Option<Bindings>
    decreases srcs.len() - d,
{
    if d < 0 || d >= srcs.len() {
        Some(s)
    } else if !(0 <= rows[d] < srcs[d].1.len()) {
        None
    } else {
        let (res, s1) = unify_spec(srcs[d].0, srcs[d].1[rows[d]], s);
        if res == Ok::<bool, UnifyErr>(true) {
            unify_chain(srcs, rows, d + 1, s1)
        } else {
            None
        }
    }
}

proof fn lemma_explore_complete(srcs: Seq<SourceV>, rows: Seq<int>, d: int, r: int, s: Bindings, f: Bindings)
    requires
        0 <= d <= srcs.len(),
        0 <= r,
        rows.len() == srcs.len(),
        d < srcs.len() ==> r <= rows[d],
        unify_chain(srcs, rows, d, s) == Some(f),
        !has_err(explore(srcs, d, r, s)),
    ensures
        explore(srcs, d, r, s).contains(Ok::<Bindings, UnifyErr>(f)),
    decreases srcs.len() - d, (if 0 <= d < srcs.len() { srcs[d].1.len() - r } else { 0 }),
{
    if d == srcs.len() {
        assert(explore(srcs, d, r, s)[0] == Ok::<Bindings, UnifyErr>(f));
    } else {
        let (res, s1) = unify_spec(srcs[d].0, srcs[d].1[r], s);
        let a = explore(srcs, d + 1, 0, s1);
        let b = explore(srcs, d, r + 1, s);
        match res {
            Ok(true) => {
                if !has_err(a) {
                    lemma_has_err_concat(a, b);
                } else {
                    assert(false);
                }
                if r == rows[d] {
                    lemma_explore_complete(srcs, rows, d + 1, 0, s1, f);
                    let i = choose|i: int| 0 <= i < a.len() && a[i] == Ok::<Bindings, UnifyErr>(f);
                    assert((a + b)[i] == Ok::<Bindings, UnifyErr>(f));
                } else {
                    lemma_explore_complete(srcs, rows, d, r + 1, s, f);
                    let i = choose|i: int| 0 <= i < b.len() && b[i] == Ok::<Bindings, UnifyErr>(f);
                    assert((a + b)[a.len() + i] == Ok::<Bindings, UnifyErr>(f));
                }
            },
            Ok(false) => {
                lemma_explore_complete(srcs, rows, d, r + 1, s, f);
            },
            Err(e) => {
                assert(explore(srcs, d, r, s)[0] is Err);
            },
        }
    }
}

proof fn lemma_by_size_len(srcs: Seq<SourceV>)
    ensures
        by_size(srcs).len() == srcs.len(),
    decreases srcs.len(),
{
    if srcs.len() > 0 {
        lemma_first_smallest(srcs);
        lemma_by_size_len(srcs.remove(first_smallest(srcs)));
    }
}

/// Search completeness: when the search meets no structural error, it gives
/// every combination of rows, one per source, that the patterns accept when
/// unified in turn in the order the search takes the sources (fewest rows
/// first): `rows[j]` is the row taken from the `j`-th source in that order.
pub proof fn lemma_search_complete(srcs: Seq<SourceV>, rows: Seq<int>)
    requires
        rows.len() == srcs.len(),
        unify_chain(by_size(srcs), rows, 0, Seq::empty()) is Some,
        forall|i: int| 0 <= i < search_results(srcs).len() ==> #[trigger] search_results(srcs)[i] is Ok,
    ensures
        search_results(srcs).contains(
            Ok::<Val, UnifyErr>(
                solution_record(
                    declaration_order_spec(srcs),
                    unify_chain(by_size(srcs), rows, 0, Seq::empty())->Some_0,
                ),
            ),
        ),
{
    let sorted = by_size(srcs);
    let outs = explore(sorted, 0, 0, Seq::empty());
    let f = unify_chain(sorted, rows, 0, Seq::empty())->Some_0;
    lemma_by_size_len(srcs);
    if has_err(outs) {
        let i = choose|i: int| 0 <= i < outs.len() && #[trigger] outs[i] is Err;
        assert(search_results(srcs)[i] is Err);
    }
    if sorted.len() > 0 {
        assert(0 <= rows[0]);
    }
    lemma_explore_complete(sorted, rows, 0, 0, Seq::empty(), f);
    let i = choose|i: int| 0 <= i < outs.len() && outs[i] == Ok::<Bindings, UnifyErr>(f);
    assert(search_results(srcs)[i] == Ok::<Val, UnifyErr>(solution_record(declaration_order_spec(srcs), f)));
}

/// The names of source `k`'s pattern are among the names of all sources.
proof fn lemma_source_occurrences_has(srcs: Seq<SourceV>, k: int, n: Seq<char>)
    requires
        0 <= k < srcs.len(),
        occurrences(srcs[k].0).contains(n),
    ensures
        source_occurrences(srcs).contains(n),
    decreases srcs.len(),
{
    let init = srcs.drop_last();
    if k < srcs.len() - 1 {
        assert(init[k] == srcs[k]);
        lemma_source_occurrences_has(init, k, n);
    }
    crate::term::lemma_contains_concat(source_occurrences(init), occurrences(srcs.last().0), n);
}

/// The search binds only variables of the patterns.
proof fn lemma_explore_names(srcs: Seq<SourceV>, d: int, r: int, s: Bindings)
    ensures
        forall|i: int|
            0 <= i < explore(srcs, d, r, s).len() && #[trigger] explore(srcs, d, r, s)[i] is Ok ==> new_names_within(
                explore(srcs, d, r, s)[i]->Ok_0,
                s.len() as int,
                source_occurrences(srcs),
            ),
    decreases srcs.len() - d, (if 0 <= d < srcs.len() { srcs[d].1.len() - r } else { 0 }),
{
    if d < 0 || r < 0 {
    } else if d >= srcs.len() {
    } else if r >= srcs[d].1.len() {
    } else {
        let (res, s1) = unify_spec(srcs[d].0, srcs[d].1[r], s);
        lemma_explore_names(srcs, d, r + 1, s);
        match res {
            Ok(true) => {
                lemma_explore_names(srcs, d + 1, 0, s1);
                lemma_explore_sound(srcs, d + 1, 0, s1);
                lemma_unify_extends(srcs[d].0, srcs[d].1[r], s);
                lemma_unify_new_names(srcs[d].0, srcs[d].1[r], s);
                let a = explore(srcs, d + 1, 0, s1);
                let b = explore(srcs, d, r + 1, s);
                assert forall|i: int| 0 <= i < explore(srcs, d, r, s).len() && #[trigger] explore(
                    srcs,
                    d,
                    r,
                    s,
                )[i] is Ok implies new_names_within(
                    explore(srcs, d, r, s)[i]->Ok_0,
                    s.len() as int,
                    source_occurrences(srcs),
                ) by {
                    lemma_join_ok(a, b, i);
                    let f = explore(srcs, d, r, s)[i]->Ok_0;
                    if 0 <= i < a.len() && join(a, b)[i] == a[i] {
                        assert(a[i] is Ok);
                        assert(extends(s1, f));
                        assert forall|j: int| s.len() <= j < f.len() implies #[trigger] source_occurrences(
                            srcs,
                        ).contains(f[j].0) by {
                            if j < s1.len() {
                                assert(f[j] == s1[j]);
                                assert(occurrences(srcs[d].0).contains(s1[j].0));
                                lemma_source_occurrences_has(srcs, d, s1[j].0);
                            }
                        }
                    } else {
                        assert(b[i - a.len()] is Ok);
                    }
                }
            },
            _ => {},
        }
    }
}

/// Every source ordered by size is one of the sources.
proof fn lemma_by_size_from(srcs: Seq<SourceV>, j: int)
    requires
        0 <= j < by_size(srcs).len(),
    ensures
        exists|k: int| 0 <= k < srcs.len() && #[trigger] srcs[k] == by_size(srcs)[j],
    decreases srcs.len(),
{
    lemma_first_smallest(srcs);
    let i = first_smallest(srcs);
    let rest = srcs.remove(i);
    if j == 0 {
        assert(srcs[i] == by_size(srcs)[0]);
    } else {
        assert(by_size(srcs)[j] == by_size(rest)[j - 1]);
        lemma_by_size_from(rest, j - 1);
        let k2 = choose|k: int| 0 <= k < rest.len() && #[trigger] rest[k] == by_size(rest)[j - 1];
        if k2 < i {
            assert(srcs[k2] == rest[k2]);
        } else {
            assert(srcs[k2 + 1] == rest[k2]);
        }
    }
}

proof fn lemma_undeclared_empty(decl: Seq<Seq<char>>, s: Bindings)
    requires
        forall|i: int| 0 <= i < s.len() ==> decl.contains(#[trigger] s[i].0),
    ensures
        undeclared_bindings(decl, s) == Seq::<(Seq<char>, Val)>::empty(),
    decreases s.len(),
{
    if s.len() > 0 {
        assert(decl.contains(s[s.len() - 1].0));
        lemma_undeclared_empty(decl, s.drop_last());
    }
}

proof fn lemma_declared_all(decl: Seq<Seq<char>>, s: Bindings)
    requires
        forall|j: int| 0 <= j < decl.len() ==> lookup(s, #[trigger] decl[j]) is Some,
    ensures
        declared_bindings(decl, s).len() == decl.len(),
        forall|j: int|
            0 <= j < decl.len() ==> #[trigger] declared_bindings(decl, s)[j] == (decl[j], lookup(s, decl[j])->Some_0),
    decreases decl.len(),
{
    if decl.len() > 0 {
        let init = decl.drop_last();
        assert forall|j: int| 0 <= j < init.len() implies lookup(s, #[trigger] init[j]) is Some by {
            assert(init[j] == decl[j]);
        }
        lemma_declared_all(init, s);
        assert(lookup(s, decl[decl.len() - 1]) is Some);
        assert forall|j: int| 0 <= j < decl.len() implies #[trigger] declared_bindings(decl, s)[j] == (
            decl[j],
            lookup(s, decl[j])->Some_0,
        ) by {
            if j < decl.len() - 1 {
                assert(init[j] == decl[j]);
            }
        }
    }
}

/// Each solution record has exactly one column per variable of the patterns,
/// in declaration order (first appearance across the patterns, in the order
/// the sources were given), holding the value the solution binds it to; and
/// under those bindings every source has a row that its pattern accepts.
pub proof fn lemma_solution_columns(srcs: Seq<SourceV>, i: int)
    requires
        0 <= i < search_results(srcs).len(),
        search_results(srcs)[i] is Ok,
    ensures
        exists|s: Bindings|
            {
                &&& #[trigger] search_results(srcs)[i] == Ok::<Val, UnifyErr>(
                    Val::Record(declared_bindings(declaration_order_spec(srcs), s)),
                )
                &&& declared_bindings(declaration_order_spec(srcs), s).len() == declaration_order_spec(srcs).len()
                &&& forall|j: int|
                    0 <= j < declaration_order_spec(srcs).len() ==> #[trigger] declared_bindings(
                        declaration_order_spec(srcs),
                        s,
                    )[j] == (declaration_order_spec(srcs)[j], lookup(s, declaration_order_spec(srcs)[j])->Some_0)
                &&& forall|k: int| 0 <= k < srcs.len() ==> #[trigger] source_satisfied(srcs, k, s)
            },
{
    let sorted = by_size(srcs);
    let outs = explore(sorted, 0, 0, Seq::empty());
    let decl = declaration_order_spec(srcs);
    lemma_search_sound(srcs, i);
    lemma_explore_names(sorted, 0, 0, Seq::empty());
    assert(outs[i] is Ok);
    let f = outs[i]->Ok_0;
    assert(search_results(srcs)[i] == Ok::<Val, UnifyErr>(solution_record(decl, f)));
    crate::term::lemma_add_new_props(Seq::empty(), source_occurrences(srcs));
    assert forall|j: int| 0 <= j < f.len() implies decl.contains(#[trigger] f[j].0) by {
        assert(source_occurrences(sorted).contains(f[j].0));
        lemma_source_name_origin(sorted, f[j].0);
        let jj = choose|jj: int| 0 <= jj < sorted.len() && occurrences(sorted[jj].0).contains(f[j].0);
        lemma_by_size_from(srcs, jj);
        let k = choose|k: int| 0 <= k < srcs.len() && #[trigger] srcs[k] == sorted[jj];
        lemma_source_occurrences_has(srcs, k, f[j].0);
    }
    lemma_undeclared_empty(decl, f);
    assert(solution_record(decl, f) == Val::Record(declared_bindings(decl, f))) by {
        assert(declared_bindings(decl, f) + Seq::<(Seq<char>, Val)>::empty() =~= declared_bindings(decl, f));
    }
    lemma_explore_sound(sorted, 0, 0, Seq::empty());
    assert forall|j: int| 0 <= j < decl.len() implies lookup(f, #[trigger] decl[j]) is Some by {
        assert(decl.contains(decl[j]));
        assert(source_occurrences(srcs).contains(decl[j]));
        lemma_source_name_origin(srcs, decl[j]);
        let k = choose|k: int| 0 <= k < srcs.len() && occurrences(srcs[k].0).contains(decl[j]);
        lemma_by_size_keeps(srcs, k);
        let jj = choose|jj: int| 0 <= jj < sorted.len() && #[trigger] sorted[jj] == srcs[k];
        assert(source_satisfied(sorted, jj, f));
        let r = choose|r: int| 0 <= r < sorted[jj].1.len() && #[trigger] accepts(sorted[jj].0, sorted[jj].1[r], f);
        lemma_unify_binds_all(sorted[jj].0, sorted[jj].1[r], f);
        assert(all_bound(f, occurrences(sorted[jj].0)));
    }
    lemma_declared_all(decl, f);
    let cols = declared_bindings(decl, f);
    assert(search_results(srcs)[i] == Ok::<Val, UnifyErr>(Val::Record(cols)));
    assert(forall|k: int| 0 <= k < srcs.len() ==> #[trigger] source_satisfied(srcs, k, f)) by {
        assert forall|k: int| 0 <= k < srcs.len() implies #[trigger] source_satisfied(srcs, k, f) by {
            lemma_by_size_keeps(srcs, k);
            let jj = choose|jj: int| 0 <= jj < sorted.len() && #[trigger] sorted[jj] == srcs[k];
            assert(source_satisfied(sorted, jj, f));
            let r = choose|r: int| 0 <= r < sorted[jj].1.len() && #[trigger] accepts(sorted[jj].0, sorted[jj].1[r], f);
            assert(accepts(srcs[k].0, srcs[k].1[r], f));
        }
    }
}

/// A name among all sources' names is a name of some source's pattern.
proof fn lemma_source_name_origin(srcs: Seq<SourceV>, n: Seq<char>)
    requires
        source_occurrences(srcs).contains(n),
    ensures
        exists|k: int| 0 <= k < srcs.len() && occurrences(srcs[k].0).contains(n),
    decreases srcs.len(),
{
    let init = srcs.drop_last();
    crate::term::lemma_contains_concat(source_occurrences(init), occurrences(srcs.last().0), n);
    if source_occurrences(init).contains(n) {
        lemma_source_name_origin(init, n);
        let k = choose|k: int| 0 <= k < init.len() && occurrences(init[k].0).contains(n);
        assert(srcs[k] == init[k]);
    } else {
        assert(occurrences(srcs[srcs.len() - 1].0).contains(n));
    }
}

/// No row of any source holds a `Real` atom.
pub open spec fn sources_real_free(srcs: Seq<SourceV>) -> bool {
    forall|k: int, r: int| 0 <= k < srcs.len() && 0 <= r < srcs[k].1.len() ==> real_free(#[trigger] srcs[k].1[r])
}

/// Each source of `a` is a source of `b`.
pub open spec fn sources_within(a: Seq<SourceV>, b: Seq<SourceV>) -> bool {
    forall|j: int| 0 <= j < a.len() ==> exists|k: int| 0 <= k < b.len() && #[trigger] b[k] == #[trigger] a[j]
}

/// The search binds no `Real` atom when no row holds one.
proof fn lemma_explore_real_free(srcs: Seq<SourceV>, d: int, r: int, s: Bindings)
    requires
        bindings_real_free(s),
        sources_real_free(srcs),
    ensures
        forall|i: int|
            0 <= i < explore(srcs, d, r, s).len() && #[trigger] explore(srcs, d, r, s)[i] is Ok ==> bindings_real_free(
                explore(srcs, d, r, s)[i]->Ok_0,
            ),
    decreases srcs.len() - d, (if 0 <= d < srcs.len() { srcs[d].1.len() - r } else { 0 }),
{
    if d < 0 || r < 0 {
    } else if d >= srcs.len() {
    } else if r >= srcs[d].1.len() {
    } else {
        let (res, s1) = unify_spec(srcs[d].0, srcs[d].1[r], s);
        lemma_explore_real_free(srcs, d, r + 1, s);
        match res {
            Ok(true) => {
                assert(real_free(srcs[d].1[r]));
                lemma_unify_real_free(srcs[d].0, srcs[d].1[r], s);
                lemma_explore_real_free(srcs, d + 1, 0, s1);
                let a = explore(srcs, d + 1, 0, s1);
                let b = explore(srcs, d, r + 1, s);
                assert forall|i: int| 0 <= i < explore(srcs, d, r, s).len() && #[trigger] explore(
                    srcs,
                    d,
                    r,
                    s,
                )[i] is Ok implies bindings_real_free(explore(srcs, d, r, s)[i]->Ok_0) by {
                    lemma_join_ok(a, b, i);
                    if 0 <= i < a.len() && join(a, b)[i] == a[i] {
                        assert(a[i] is Ok);
                    } else {
                        assert(b[i - a.len()] is Ok);
                    }
                }
            },
            _ => {},
        }
    }
}

/// Taking, from each source on from `d`, a row that its pattern accepts under
/// `f`, the patterns unified in turn from bindings that agree with `f` all
/// match; the bindings made agree with `f`, begin with the ones started from,
/// and bind every variable of those patterns.
proof fn lemma_chain_agrees(srcs: Seq<SourceV>, rows: Seq<int>, d: int, s: Bindings, f: Bindings)
    requires
        0 <= d <= srcs.len(),
        rows.len() == srcs.len(),
        forall|k: int|
            d <= k < srcs.len() ==> 0 <= #[trigger] rows[k] < srcs[k].1.len() && accepts(
                srcs[k].0,
                srcs[k].1[rows[k]],
                f,
            ),
        agrees(s, f),
        bindings_real_free(s),
        bindings_real_free(f),
        sources_real_free(srcs),
    ensures
        unify_chain(srcs, rows, d, s) is Some,
        agrees(unify_chain(srcs, rows, d, s)->Some_0, f),
        bindings_real_free(unify_chain(srcs, rows, d, s)->Some_0),
        extends(s, unify_chain(srcs, rows, d, s)->Some_0),
        forall|k: int| d <= k < srcs.len() ==> all_bound(unify_chain(srcs, rows, d, s)->Some_0, #[trigger] occurrences(srcs[k].0)),
    decreases srcs.len() - d,
{
    if d == srcs.len() {
        assert(s.subrange(0, s.len() as int) =~= s);
    } else {
        let row = srcs[d].1[rows[d]];
        assert(0 <= rows[d] < srcs[d].1.len() && accepts(srcs[d].0, row, f));
        assert(real_free(row));
        lemma_unify_agrees(srcs[d].0, row, s, f);
        let s1 = unify_spec(srcs[d].0, row, s).1;
        lemma_unify_extends(srcs[d].0, row, s);
        lemma_unify_binds_all(srcs[d].0, row, s);
        lemma_chain_agrees(srcs, rows, d + 1, s1, f);
        let g = unify_chain(srcs, rows, d + 1, s1)->Some_0;
        crate::unify::lemma_extends_trans(s, s1, g);
        assert(all_bound(g, occurrences(srcs[d].0))) by {
            assert forall|n: Seq<char>| #[trigger] occurrences(srcs[d].0).contains(n) implies lookup(g, n) is Some by {
                crate::substitution::lemma_lookup_prefix(s1, g, n);
            }
        }
    }
}

/// Two lists of sources, each of whose sources is one of the other's, declare
/// the same variables.
proof fn lemma_same_variables(a: Seq<SourceV>, b: Seq<SourceV>, n: Seq<char>)
    requires
        sources_within(a, b),
        declaration_order_spec(a).contains(n),
    ensures
        declaration_order_spec(b).contains(n),
{
    crate::term::lemma_add_new_props(Seq::empty(), source_occurrences(a));
    crate::term::lemma_add_new_props(Seq::empty(), source_occurrences(b));
    lemma_source_name_origin(a, n);
    let j = choose|j: int| 0 <= j < a.len() && occurrences(a[j].0).contains(n);
    let k = choose|k: int| 0 <= k < b.len() && #[trigger] b[k] == a[j];
    lemma_source_occurrences_has(b, k, n);
}

/// The search does not depend on the order of the sources: for sources
/// without `Real` atoms in their rows, and another list holding the same
/// sources (in any order, such as a permutation), when the other list's search
/// meets no structural error, each solution of the first search has a
/// solution of the other that binds the same variables to equal values. (Each
/// solution's record has one column per variable in its own declaration
/// order; see [`lemma_solution_columns`].)
pub proof fn lemma_search_order_free(srcs: Seq<SourceV>, other: Seq<SourceV>, i: int)
    requires
        sources_within(srcs, other),
        sources_within(other, srcs),
        sources_real_free(srcs),
        0 <= i < search_results(srcs).len(),
        search_results(srcs)[i] is Ok,
        forall|j: int| 0 <= j < search_results(other).len() ==> #[trigger] search_results(other)[j] is Ok,
    ensures
        forall|n: Seq<char>|
            #[trigger] declaration_order_spec(srcs).contains(n) <==> declaration_order_spec(other).contains(n),
        exists|f: Bindings, g: Bindings, j: int|
            #![trigger solution_record(declaration_order_spec(srcs), f), solution_record(declaration_order_spec(other), g), search_results(other)[j]]
            {
                &&& search_results(srcs)[i] == Ok::<Val, UnifyErr>(solution_record(declaration_order_spec(srcs), f))
                &&& 0 <= j < search_results(other).len()
                &&& search_results(other)[j] == Ok::<Val, UnifyErr>(
                    solution_record(declaration_order_spec(other), g),
                )
                &&& forall|n: Seq<char>|
                    #[trigger] declaration_order_spec(srcs).contains(n) ==> lookup(f, n) is Some && lookup(g, n) is Some
                        && val_eq(lookup(f, n)->Some_0, lookup(g, n)->Some_0)
            },
{
    assert forall|n: Seq<char>| #[trigger] declaration_order_spec(srcs).contains(n) <==> declaration_order_spec(
        other,
    ).contains(n) by {
        if declaration_order_spec(srcs).contains(n) {
            lemma_same_variables(srcs, other, n);
        }
        if declaration_order_spec(other).contains(n) {
            lemma_same_variables(other, srcs, n);
        }
    }
    let sorted = by_size(srcs);
    let outs = explore(sorted, 0, 0, Seq::empty());
    let decl = declaration_order_spec(srcs);
    lemma_explore_sound(sorted, 0, 0, Seq::empty());
    let empty: Bindings = Seq::empty();
    assert(outs[i] is Ok);
    let f = outs[i]->Ok_0;
    assert(search_results(srcs)[i] == Ok::<Val, UnifyErr>(solution_record(decl, f)));
    assert(satisfied_from(sorted, 0, f));
    // every source is satisfied under f, and f holds no Real atom
    assert(sources_real_free(sorted)) by {
        assert forall|k: int, r: int| 0 <= k < sorted.len() && 0 <= r < sorted[k].1.len() implies real_free(
            #[trigger] sorted[k].1[r],
        ) by {
            lemma_by_size_from(srcs, k);
            let m = choose|m: int| 0 <= m < srcs.len() && #[trigger] srcs[m] == sorted[k];
        }
    }
    assert(bindings_real_free(empty));
    lemma_explore_real_free(sorted, 0, 0, empty);
    assert(bindings_real_free(f));
    // the other search, in its own order
    let osorted = by_size(other);
    lemma_by_size_len(other);
    assert forall|q: int| 0 <= q < osorted.len() implies #[trigger] source_satisfied(osorted, q, f) by {
        lemma_by_size_from(other, q);
        let jo = choose|jo: int| 0 <= jo < other.len() && #[trigger] other[jo] == osorted[q];
        let k = choose|k: int| 0 <= k < srcs.len() && #[trigger] srcs[k] == other[jo];
        lemma_by_size_keeps(srcs, k);
        let js = choose|js: int| 0 <= js < sorted.len() && #[trigger] sorted[js] == srcs[k];
        assert(source_satisfied(sorted, js, f));
        let r = choose|r: int| 0 <= r < sorted[js].1.len() && #[trigger] accepts(sorted[js].0, sorted[js].1[r], f);
        assert(accepts(osorted[q].0, osorted[q].1[r], f));
    }
    let rows = Seq::new(
        osorted.len(),
        |q: int| choose|r: int| 0 <= r < osorted[q].1.len() && #[trigger] accepts(osorted[q].0, osorted[q].1[r], f),
    );
    assert forall|q: int| 0 <= q < osorted.len() implies 0 <= #[trigger] rows[q] < osorted[q].1.len() && accepts(
        osorted[q].0,
        osorted[q].1[rows[q]],
        f,
    ) by {
        assert(source_satisfied(osorted, q, f));
    }
    assert(sources_real_free(osorted)) by {
        assert forall|k: int, r: int| 0 <= k < osorted.len() && 0 <= r < osorted[k].1.len() implies real_free(
            #[trigger] osorted[k].1[r],
        ) by {
            lemma_by_size_from(other, k);
            let jo = choose|jo: int| 0 <= jo < other.len() && #[trigger] other[jo] == osorted[k];
            let m = choose|m: int| 0 <= m < srcs.len() && #[trigger] srcs[m] == other[jo];
        }
    }
    lemma_chain_agrees(osorted, rows, 0, empty, f);
    let g = unify_chain(osorted, rows, 0, empty)->Some_0;
    lemma_search_complete(other, rows);
    let odecl = declaration_order_spec(other);
    let j = choose|j: int|
        0 <= j < search_results(other).len() && search_results(other)[j] == Ok::<Val, UnifyErr>(
            solution_record(odecl, g),
        );
    // f and g bind every declared variable, to equal values
    lemma_solution_binds_all(srcs, f);
    assert forall|n: Seq<char>| #[trigger] decl.contains(n) implies lookup(f, n) is Some && lookup(g, n) is Some
        && val_eq(lookup(f, n)->Some_0, lookup(g, n)->Some_0) by {
        assert(lookup(f, n) is Some);
        assert(odecl.contains(n));
        crate::term::lemma_add_new_props(Seq::empty(), source_occurrences(other));
        lemma_source_name_origin(other, n);
        let jo = choose|jo: int| 0 <= jo < other.len() && occurrences(other[jo].0).contains(n);
        lemma_by_size_keeps(other, jo);
        let q = choose|q: int| 0 <= q < osorted.len() && #[trigger] osorted[q] == other[jo];
        assert(all_bound(g, occurrences(osorted[q].0)));
        assert(lookup(g, n) is Some);
        assert(agrees(g, f));
        assert(val_eq(lookup(f, n)->Some_0, lookup(g, n)->Some_0));
    }
}

/// A search solution binds every declared variable.
proof fn lemma_solution_binds_all(srcs: Seq<SourceV>, f: Bindings)
    requires
        satisfied_from(by_size(srcs), 0, f),
    ensures
        forall|n: Seq<char>| #[trigger] declaration_order_spec(srcs).contains(n) ==> lookup(f, n) is Some,
{
    let sorted = by_size(srcs);
    assert forall|n: Seq<char>| #[trigger] declaration_order_spec(srcs).contains(n) implies lookup(f, n) is Some by {
        crate::term::lemma_add_new_props(Seq::empty(), source_occurrences(srcs));
        lemma_source_name_origin(srcs, n);
        let k = choose|k: int| 0 <= k < srcs.len() && occurrences(srcs[k].0).contains(n);
        lemma_by_size_keeps(srcs, k);
        let jj = choose|jj: int| 0 <= jj < sorted.len() && #[trigger] sorted[jj] == srcs[k];
        assert(source_satisfied(sorted, jj, f));
        let r = choose|r: int| 0 <= r < sorted[jj].1.len() && #[trigger] accepts(sorted[jj].0, sorted[jj].1[r], f);
        lemma_unify_binds_all(sorted[jj].0, sorted[jj].1[r], f);
        assert(all_bound(f, occurrences(sorted[jj].0)));
    }
}

/// `p` lists each index of `[0, n)` exactly once.
pub open spec fn is_permutation(p: Seq<int>, n: int) -> bool {
    &&& p.len() == n
    &&& forall|q: int| 0 <= q < n ==> 0 <= #[trigger] p[q] < n
    &&& forall|a: int, b: int| 0 <= a < n && 0 <= b < n && #[trigger] p[a] == #[trigger] p[b] ==> a == b
}

/// The items of `a` in the order `p` gives: `p[q]`-th item at position `q`.
pub open spec fn permuted<A>(a: Seq<A>, p: Seq<int>) -> Seq<A> {
    Seq::new(p.len(), |q: int| a[p[q]])
}

/// A permutation has an inverse.
proof fn lemma_permutation_inverse(p: Seq<int>, n: int) -> (pi: Seq<int>)
    requires
        is_permutation(p, n),
    ensures
        is_permutation(pi, n),
        forall|q: int| 0 <= q < n ==> #[trigger] pi[p[q]] == q,
        forall|m: int| 0 <= m < n ==> #[trigger] p[pi[m]] == m,
{
    let f = |q: int| p[q];
    let pi = Seq::new(n as nat, |m: int| choose|q: int| 0 <= q < n && #[trigger] f(q) == m);
    assert(pi.len() == n);
    assert forall|m: int| 0 <= m < n implies 0 <= #[trigger] pi[m] < n && p[pi[m]] == m by {
        crate::value::lemma_injective_onto(n, f, m);
    }
    assert forall|q: int| 0 <= q < n implies #[trigger] pi[p[q]] == q by {
        let m = p[q];
        assert(p[pi[m]] == m);
    }
    assert forall|a: int, b: int| 0 <= a < n && 0 <= b < n && #[trigger] pi[a] == #[trigger] pi[b] implies a == b by {
        assert(p[pi[a]] == a);
        assert(p[pi[b]] == b);
    }
    pi
}

/// Ordering sources by size permutes them.
proof fn lemma_by_size_permutation(x: Seq<SourceV>) -> (p: Seq<int>)
    ensures
        is_permutation(p, x.len() as int),
        by_size(x) == permuted(x, p),
    decreases x.len(),
{
    if x.len() == 0 {
        let p = Seq::<int>::empty();
        assert(by_size(x) =~= permuted(x, p));
        p
    } else {
        lemma_first_smallest(x);
        let i = first_smallest(x);
        let rest = x.remove(i);
        let p1 = lemma_by_size_permutation(rest);
        let adj = |k: int| if k < i { k } else { k + 1 };
        let p = seq![i] + Seq::new(p1.len(), |q: int| adj(p1[q]));
        assert forall|q: int| 0 <= q < x.len() implies 0 <= #[trigger] p[q] < x.len() by {
            if q > 0 {
                assert(p[q] == adj(p1[q - 1]));
            }
        }
        assert forall|a: int, b: int|
            0 <= a < x.len() && 0 <= b < x.len() && #[trigger] p[a] == #[trigger] p[b] implies a == b by {
            if a > 0 {
                assert(p[a] == adj(p1[a - 1]));
            }
            if b > 0 {
                assert(p[b] == adj(p1[b - 1]));
            }
        }
        assert(by_size(x) =~= permuted(x, p)) by {
            assert forall|q: int| 0 <= q < x.len() implies by_size(x)[q] == permuted(x, p)[q] by {
                if q > 0 {
                    assert(by_size(x)[q] == by_size(rest)[q - 1]);
                    assert(rest[p1[q - 1]] == x[adj(p1[q - 1])]);
                }
            }
        }
        p
    }
}

/// The rows that the depth-first search takes, from the state "at source `d`,
/// trying rows from `r` on, with bindings `s`", for each solution it gives:
/// one row index per source from `d` on, solution by solution, in the order
/// of [`explore`].
pub open spec fn explore_rows(srcs: Seq<SourceV>, d: int, r: int, s: Bindings) -> Seq<Seq<int>>
    decreases srcs.len() - d, (if 0 <= d < srcs.len() { srcs[d].1.len() - r } else { 0 }),
{
    if d < 0 || r < 0 {
        Seq::empty()
    } else if d >= srcs.len() {
        seq![Seq::empty()]
    } else if r >= srcs[d].1.len() {
        Seq::empty()
    } else {
        let (res, s1) = unify_spec(srcs[d].0, srcs[d].1[r], s);
        match res {
            Ok(true) => explore_rows(srcs, d + 1, 0, s1).map_values(|c: Seq<int>| seq![r] + c) + explore_rows(
                srcs,
                d,
                r + 1,
                s,
            ),
            Ok(false) => explore_rows(srcs, d, r + 1, s),
            Err(_) => Seq::empty(),
        }
    }
}

/// One row index for each source from `d` on, each in range.
pub open spec fn choice_valid(srcs: Seq<SourceV>, d: int, c: Seq<int>) -> bool {
    &&& c.len() == srcs.len() - d
    &&& forall|k: int| 0 <= k < c.len() ==> 0 <= #[trigger] c[k] < srcs[d + k].1.len()
}

/// What holds of the `i`-th solution from a search state and the rows it took.
pub open spec fn row_solution(
    srcs: Seq<SourceV>,
    d: int,
    r: int,
    s: Bindings,
    pre: Seq<int>,
    c: Seq<int>,
    out: Out,
) -> bool {
    &&& choice_valid(srcs, d, c)
    &&& (d < srcs.len() ==> c[0] >= r)
    &&& out is Ok
    &&& unify_chain(srcs, pre + c, d, s) == Some(out->Ok_0)
}

proof fn lemma_chain_step(srcs: Seq<SourceV>, rows: Seq<int>, d: int, s: Bindings)
    requires
        0 <= d < srcs.len(),
        d < rows.len(),
        0 <= rows[d] < srcs[d].1.len(),
        unify_spec(srcs[d].0, srcs[d].1[rows[d]], s).0 == Ok::<bool, UnifyErr>(true),
    ensures
        unify_chain(srcs, rows, d, s) == unify_chain(srcs, rows, d + 1, unify_spec(srcs[d].0, srcs[d].1[rows[d]], s).1),
{
}

/// When the search meets no structural error, its solutions come one for
/// each choice of rows that it lists, in order, each solution being what
/// unifying those rows in turn gives; no choice is listed twice.
proof fn lemma_explore_rows(srcs: Seq<SourceV>, d: int, r: int, s: Bindings, pre: Seq<int>)
    requires
        0 <= d <= srcs.len(),
        0 <= r,
        pre.len() == d,
        !has_err(explore(srcs, d, r, s)),
    ensures
        explore_rows(srcs, d, r, s).len() == explore(srcs, d, r, s).len(),
        forall|i: int|
            0 <= i < explore(srcs, d, r, s).len() ==> row_solution(
                srcs,
                d,
                r,
                s,
                pre,
                #[trigger] explore_rows(srcs, d, r, s)[i],
                explore(srcs, d, r, s)[i],
            ),
        forall|a: int, b: int|
            0 <= a < b < explore_rows(srcs, d, r, s).len() ==> #[trigger] explore_rows(srcs, d, r, s)[a]
                != #[trigger] explore_rows(srcs, d, r, s)[b],
    decreases srcs.len() - d, (if 0 <= d < srcs.len() { srcs[d].1.len() - r } else { 0 }),
{
    let e = explore(srcs, d, r, s);
    let rs = explore_rows(srcs, d, r, s);
    if d >= srcs.len() {
        assert(pre + Seq::<int>::empty() =~= pre);
        assert(row_solution(srcs, d, r, s, pre, rs[0], e[0]));
    } else if r >= srcs[d].1.len() {
    } else {
        let (res, s1) = unify_spec(srcs[d].0, srcs[d].1[r], s);
        let b = explore(srcs, d, r + 1, s);
        let bs = explore_rows(srcs, d, r + 1, s);
        match res {
            Ok(true) => {
                let a = explore(srcs, d + 1, 0, s1);
                let as_ = explore_rows(srcs, d + 1, 0, s1);
                if has_err(a) {
                    assert(false);
                }
                lemma_has_err_concat(a, b);
                let pre1 = pre.push(r);
                lemma_explore_rows(srcs, d + 1, 0, s1, pre1);
                lemma_explore_rows(srcs, d, r + 1, s, pre);
                let am = as_.map_values(|c: Seq<int>| seq![r] + c);
                assert(rs == am + bs);
                assert(e == a + b);
                assert forall|i: int| 0 <= i < e.len() implies row_solution(srcs, d, r, s, pre, #[trigger] rs[i], e[i]) by {
                    if i < a.len() {
                        let c0 = as_[i];
                        assert(row_solution(srcs, d + 1, 0, s1, pre1, c0, a[i]));
                        let c = seq![r] + c0;
                        assert(rs[i] == c);
                        assert(e[i] == a[i]);
                        assert(pre1 + c0 =~= pre + c);
                        assert(choice_valid(srcs, d, c)) by {
                            assert forall|k: int| 0 <= k < c.len() implies 0 <= #[trigger] c[k] < srcs[d + k].1.len() by {
                                if k > 0 {
                                    assert(c[k] == c0[k - 1]);
                                }
                            }
                        }
                        assert((pre + c)[d] == r);
                        lemma_chain_step(srcs, pre + c, d, s);
                    } else {
                        assert(rs[i] == bs[i - a.len()]);
                        assert(e[i] == b[i - a.len()]);
                        assert(row_solution(srcs, d, r + 1, s, pre, bs[i - a.len()], b[i - a.len()]));
                    }
                }
                assert forall|x: int, y: int| 0 <= x < y < rs.len() implies #[trigger] rs[x] != #[trigger] rs[y] by {
                    if y < a.len() {
                        assert(rs[x] == seq![r] + as_[x]);
                        assert(rs[y] == seq![r] + as_[y]);
                        if rs[x] == rs[y] {
                            assert((seq![r] + as_[x]).drop_first() =~= as_[x]);
                            assert((seq![r] + as_[y]).drop_first() =~= as_[y]);
                        }
                    } else if x < a.len() {
                        assert(rs[x][0] == r);
                        assert(row_solution(srcs, d, r + 1, s, pre, bs[y - a.len()], b[y - a.len()]));
                        assert(rs[y][0] >= r + 1);
                    } else {
                        assert(rs[x] == bs[x - a.len()]);
                        assert(rs[y] == bs[y - a.len()]);
                    }
                }
            },
            Ok(false) => {
                lemma_explore_rows(srcs, d, r + 1, s, pre);
                assert forall|i: int| 0 <= i < e.len() implies row_solution(srcs, d, r, s, pre, #[trigger] rs[i], e[i]) by {
                    assert(row_solution(srcs, d, r + 1, s, pre, bs[i], b[i]));
                }
            },
            Err(_) => {
                assert(e[0] is Err);
            },
        }
    }
}

/// When the search meets no structural error, it lists every choice of rows
/// that unifies in turn.
proof fn lemma_explore_rows_complete(srcs: Seq<SourceV>, d: int, r: int, s: Bindings, pre: Seq<int>, c: Seq<int>)
    requires
        0 <= d <= srcs.len(),
        0 <= r,
        pre.len() == d,
        !has_err(explore(srcs, d, r, s)),
        choice_valid(srcs, d, c),
        d < srcs.len() ==> c[0] >= r,
        unify_chain(srcs, pre + c, d, s) is Some,
    ensures
        explore_rows(srcs, d, r, s).contains(c),
    decreases srcs.len() - d, (if 0 <= d < srcs.len() { srcs[d].1.len() - r } else { 0 }),
{
    let rs = explore_rows(srcs, d, r, s);
    if d >= srcs.len() {
        assert(c =~= Seq::<int>::empty());
        assert(rs[0] == c);
    } else {
        assert(0 <= c[0] < srcs[d].1.len());
        let (res, s1) = unify_spec(srcs[d].0, srcs[d].1[r], s);
        let b = explore(srcs, d, r + 1, s);
        let bs = explore_rows(srcs, d, r + 1, s);
        let rows = pre + c;
        assert(rows[d] == c[0]);
        match res {
            Ok(true) => {
                let a = explore(srcs, d + 1, 0, s1);
                let as_ = explore_rows(srcs, d + 1, 0, s1);
                if has_err(a) {
                    assert(false);
                }
                lemma_has_err_concat(a, b);
                let am = as_.map_values(|x: Seq<int>| seq![r] + x);
                assert(rs == am + bs);
                if c[0] == r {
                    let c0 = c.drop_first();
                    let pre1 = pre.push(r);
                    assert(pre1 + c0 =~= rows);
                    lemma_chain_step(srcs, rows, d, s);
                    assert(choice_valid(srcs, d + 1, c0)) by {
                        assert forall|k: int| 0 <= k < c0.len() implies 0 <= #[trigger] c0[k] < srcs[d + 1 + k].1.len() by {
                            assert(c0[k] == c[k + 1]);
                        }
                    }
                    lemma_explore_rows_complete(srcs, d + 1, 0, s1, pre1, c0);
                    let i = choose|i: int| 0 <= i < as_.len() && as_[i] == c0;
                    assert(seq![r] + c0 =~= c);
                    assert(rs[i] == c);
                } else {
                    lemma_explore_rows_complete(srcs, d, r + 1, s, pre, c);
                    let i = choose|i: int| 0 <= i < bs.len() && bs[i] == c;
                    assert(rs[am.len() + i] == c);
                }
            },
            Ok(false) => {
                if c[0] == r {
                    assert(unify_chain(srcs, rows, d, s) is None);
                }
                lemma_explore_rows_complete(srcs, d, r + 1, s, pre, c);
            },
            Err(_) => {
                assert(explore(srcs, d, r, s)[0] is Err);
            },
        }
    }
}

/// Unifying chosen rows in turn, when it succeeds, ends with bindings that
/// extend the start and under which every pattern accepts its row.
proof fn lemma_chain_sound(srcs: Seq<SourceV>, rows: Seq<int>, d: int, s: Bindings)
    requires
        0 <= d <= srcs.len(),
        rows.len() == srcs.len(),
        unify_chain(srcs, rows, d, s) is Some,
        bindings_real_free(s),
        sources_real_free(srcs),
    ensures
        extends(s, unify_chain(srcs, rows, d, s)->Some_0),
        bindings_real_free(unify_chain(srcs, rows, d, s)->Some_0),
        forall|k: int|
            d <= k < srcs.len() ==> 0 <= #[trigger] rows[k] < srcs[k].1.len() && accepts(
                srcs[k].0,
                srcs[k].1[rows[k]],
                unify_chain(srcs, rows, d, s)->Some_0,
            ),
    decreases srcs.len() - d,
{
    if d == srcs.len() {
        assert(s.subrange(0, s.len() as int) =~= s);
    } else {
        let row = srcs[d].1[rows[d]];
        let s1 = unify_spec(srcs[d].0, row, s).1;
        assert(real_free(row));
        lemma_unify_real_free(srcs[d].0, row, s);
        lemma_unify_extends(srcs[d].0, row, s);
        lemma_chain_sound(srcs, rows, d + 1, s1);
        let g = unify_chain(srcs, rows, d, s)->Some_0;
        crate::unify::lemma_extends_trans(s, s1, g);
        lemma_unify_stable(srcs[d].0, row, s, g);
    }
}

/// A choice of rows that unifies in turn for one order of the sources also
/// unifies for a permuted order, taken with the same rows; the bindings agree
/// and bind every variable of the patterns.
proof fn lemma_chain_transfer(t: Seq<SourceV>, u: Seq<SourceV>, pi: Seq<int>, c: Seq<int>)
    requires
        is_permutation(pi, t.len() as int),
        u == permuted(t, pi),
        sources_real_free(t),
        c.len() == t.len(),
        unify_chain(t, c, 0, Seq::empty()) is Some,
    ensures
        unify_chain(u, permuted(c, pi), 0, Seq::empty()) is Some,
        agrees(
            unify_chain(u, permuted(c, pi), 0, Seq::empty())->Some_0,
            unify_chain(t, c, 0, Seq::empty())->Some_0,
        ),
        bindings_real_free(unify_chain(u, permuted(c, pi), 0, Seq::empty())->Some_0),
        forall|q: int|
            0 <= q < u.len() ==> all_bound(
                unify_chain(u, permuted(c, pi), 0, Seq::empty())->Some_0,
                #[trigger] occurrences(u[q].0),
            ),
{
    let empty: Bindings = Seq::empty();
    assert(bindings_real_free(empty));
    lemma_chain_sound(t, c, 0, empty);
    let f = unify_chain(t, c, 0, empty)->Some_0;
    let c2 = permuted(c, pi);
    assert forall|q: int| 0 <= q < u.len() implies 0 <= #[trigger] c2[q] < u[q].1.len() && accepts(
        u[q].0,
        u[q].1[c2[q]],
        f,
    ) by {
        let k = pi[q];
        assert(0 <= k < t.len());
        assert(0 <= c[k] < t[k].1.len() && accepts(t[k].0, t[k].1[c[k]], f));
    }
    assert(sources_real_free(u)) by {
        assert forall|k: int, r: int| 0 <= k < u.len() && 0 <= r < u[k].1.len() implies real_free(
            #[trigger] u[k].1[r],
        ) by {
            assert(u[k] == t[pi[k]]);
        }
    }
    assert(agrees(empty, f));
    lemma_chain_agrees(u, c2, 0, empty, f);
}

proof fn lemma_compose_permutations(a: Seq<int>, b: Seq<int>, n: int) -> (c: Seq<int>)
    requires
        is_permutation(a, n),
        is_permutation(b, n),
    ensures
        is_permutation(c, n),
        forall|q: int| 0 <= q < n ==> #[trigger] c[q] == a[b[q]],
{
    let c = Seq::new(n as nat, |q: int| a[b[q]]);
    assert forall|x: int, y: int| 0 <= x < n && 0 <= y < n && #[trigger] c[x] == #[trigger] c[y] implies x == y by {
        assert(a[b[x]] == a[b[y]]);
    }
    c
}

proof fn lemma_permuted_back(c: Seq<int>, pi: Seq<int>, pii: Seq<int>, n: int)
    requires
        c.len() == n,
        is_permutation(pi, n),
        is_permutation(pii, n),
        forall|m: int| 0 <= m < n ==> #[trigger] pi[pii[m]] == m,
    ensures
        permuted(permuted(c, pi), pii) == c,
{
    assert forall|m: int| 0 <= m < n implies permuted(permuted(c, pi), pii)[m] == c[m] by {
        assert(0 <= pii[m] < n);
        assert(permuted(c, pi)[pii[m]] == c[pi[pii[m]]]);
    }
    assert(permuted(permuted(c, pi), pii) =~= c);
}

/// The search of permuted sources takes them in its own order by size, which
/// is a permutation of the order the first search takes; both lists hold the
/// same sources.
proof fn lemma_orders_related(srcs: Seq<SourceV>, p: Seq<int>) -> (pi: Seq<int>)
    requires
        is_permutation(p, srcs.len() as int),
    ensures
        is_permutation(pi, srcs.len() as int),
        by_size(permuted(srcs, p)) == permuted(by_size(srcs), pi),
        sources_within(srcs, permuted(srcs, p)),
        sources_within(permuted(srcs, p), srcs),
{
    let n = srcs.len() as int;
    let perm = permuted(srcs, p);
    let p1 = lemma_by_size_permutation(srcs);
    let p2 = lemma_by_size_permutation(perm);
    let p1i = lemma_permutation_inverse(p1, n);
    let pp = lemma_compose_permutations(p, p2, n);
    let pi = lemma_compose_permutations(p1i, pp, n);
    assert forall|q: int| 0 <= q < n implies by_size(perm)[q] == permuted(by_size(srcs), pi)[q] by {
        assert(by_size(perm)[q] == perm[p2[q]]);
        assert(0 <= p2[q] < n);
        assert(perm[p2[q]] == srcs[p[p2[q]]]);
        assert(pi[q] == p1i[pp[q]]);
        assert(0 <= pp[q] < n);
        assert(p1[p1i[pp[q]]] == pp[q]);
        assert(by_size(srcs)[pi[q]] == srcs[p1[pi[q]]]);
    }
    assert(by_size(perm) =~= permuted(by_size(srcs), pi));
    let pinv = lemma_permutation_inverse(p, n);
    assert forall|k: int| 0 <= k < n implies exists|j: int| 0 <= j < perm.len() && #[trigger] perm[j] == #[trigger] srcs[k] by {
        assert(0 <= pinv[k] < n);
        assert(perm[pinv[k]] == srcs[p[pinv[k]]]);
    }
    assert forall|j: int| 0 <= j < n implies exists|k: int| 0 <= k < srcs.len() && #[trigger] srcs[k] == #[trigger] perm[j] by {
        assert(0 <= p[j] < n);
    }
    pi
}

/// Each choice of rows of the first search, permuted, is a choice of the
/// second.
proof fn lemma_maps_into(ta: Seq<SourceV>, tb: Seq<SourceV>, pi: Seq<int>, i: int)
    requires
        is_permutation(pi, ta.len() as int),
        tb == permuted(ta, pi),
        sources_real_free(ta),
        !has_err(explore(ta, 0, 0, Seq::empty())),
        !has_err(explore(tb, 0, 0, Seq::empty())),
        0 <= i < explore_rows(ta, 0, 0, Seq::empty()).len(),
    ensures
        exists|j: int|
            0 <= j < explore_rows(tb, 0, 0, Seq::empty()).len() && #[trigger] explore_rows(tb, 0, 0, Seq::empty())[j]
                == permuted(explore_rows(ta, 0, 0, Seq::empty())[i], pi),
{
    let empty: Bindings = Seq::empty();
    let none: Seq<int> = Seq::empty();
    lemma_explore_rows(ta, 0, 0, empty, none);
    let c = explore_rows(ta, 0, 0, empty)[i];
    assert(row_solution(ta, 0, 0, empty, none, c, explore(ta, 0, 0, empty)[i]));
    assert(none + c =~= c);
    lemma_chain_transfer(ta, tb, pi, c);
    let c2 = permuted(c, pi);
    assert(choice_valid(tb, 0, c2)) by {
        assert forall|k: int| 0 <= k < c2.len() implies 0 <= #[trigger] c2[k] < tb[0 + k].1.len() by {
            assert(0 <= pi[k] < ta.len());
            assert(c2[k] == c[pi[k]]);
            assert(0 <= c[0 + pi[k]] < ta[0 + pi[k]].1.len());
        }
    }
    assert(none + c2 =~= c2);
    lemma_explore_rows_complete(tb, 0, 0, empty, none, c2);
}

/// Two search results are the same solution: each binds the variables of
/// `da` to equal values (the variables of `db` being the same ones).
pub open spec fn same_solution(
    da: Seq<Seq<char>>,
    ra: Result<Val, UnifyErr>,
    db: Seq<Seq<char>>,
    rb: Result<Val, UnifyErr>,
) -> bool {
    exists|f: Bindings, g: Bindings|
        #![trigger solution_record(da, f), solution_record(db, g)]
        {
            &&& ra == Ok::<Val, UnifyErr>(solution_record(da, f))
            &&& rb == Ok::<Val, UnifyErr>(solution_record(db, g))
            &&& forall|n: Seq<char>|
                #[trigger] da.contains(n) ==> lookup(f, n) is Some && lookup(g, n) is Some && val_eq(
                    lookup(f, n)->Some_0,
                    lookup(g, n)->Some_0,
                )
        }
}

proof fn lemma_sorted_real_free(srcs: Seq<SourceV>)
    requires
        sources_real_free(srcs),
    ensures
        sources_real_free(by_size(srcs)),
{
    let sorted = by_size(srcs);
    assert forall|k: int, r: int| 0 <= k < sorted.len() && 0 <= r < sorted[k].1.len() implies real_free(
        #[trigger] sorted[k].1[r],
    ) by {
        lemma_by_size_from(srcs, k);
        let m = choose|m: int| 0 <= m < srcs.len() && #[trigger] srcs[m] == sorted[k];
    }
}

/// The `i`-th solution of the search of `srcs` and the `j`-th of the search
/// of the permuted sources, when they come from the same rows, are the same
/// solution.
proof fn lemma_pair_same(srcs: Seq<SourceV>, p: Seq<int>, pi: Seq<int>, i: int, j: int)
    requires
        is_permutation(p, srcs.len() as int),
        is_permutation(pi, srcs.len() as int),
        by_size(permuted(srcs, p)) == permuted(by_size(srcs), pi),
        sources_within(srcs, permuted(srcs, p)),
        sources_real_free(srcs),
        !has_err(explore(by_size(srcs), 0, 0, Seq::empty())),
        !has_err(explore(by_size(permuted(srcs, p)), 0, 0, Seq::empty())),
        0 <= i < explore_rows(by_size(srcs), 0, 0, Seq::empty()).len(),
        0 <= j < explore_rows(by_size(permuted(srcs, p)), 0, 0, Seq::empty()).len(),
        explore_rows(by_size(permuted(srcs, p)), 0, 0, Seq::empty())[j] == permuted(
            explore_rows(by_size(srcs), 0, 0, Seq::empty())[i],
            pi,
        ),
    ensures
        same_solution(
            declaration_order_spec(srcs),
            search_results(srcs)[i],
            declaration_order_spec(permuted(srcs, p)),
            search_results(permuted(srcs, p))[j],
        ),
{
    let perm = permuted(srcs, p);
    let ta = by_size(srcs);
    let tb = by_size(perm);
    let empty: Bindings = Seq::empty();
    let none: Seq<int> = Seq::empty();
    let la = explore_rows(ta, 0, 0, empty);
    let lb = explore_rows(tb, 0, 0, empty);
    let ea = explore(ta, 0, 0, empty);
    let eb = explore(tb, 0, 0, empty);
    let da = declaration_order_spec(srcs);
    let db = declaration_order_spec(perm);
    lemma_explore_rows(ta, 0, 0, empty, none);
    lemma_explore_rows(tb, 0, 0, empty, none);
    assert(row_solution(ta, 0, 0, empty, none, la[i], ea[i]));
    assert(row_solution(tb, 0, 0, empty, none, lb[j], eb[j]));
    assert(none + la[i] =~= la[i]);
    assert(none + lb[j] =~= lb[j]);
    let f = ea[i]->Ok_0;
    let g = eb[j]->Ok_0;
    lemma_sorted_real_free(srcs);
    lemma_by_size_len(srcs);
    lemma_chain_transfer(ta, tb, pi, la[i]);
    assert(search_results(srcs)[i] == Ok::<Val, UnifyErr>(solution_record(da, f)));
    assert(search_results(perm)[j] == Ok::<Val, UnifyErr>(solution_record(db, g)));
    assert(bindings_real_free(empty));
    lemma_chain_sound(ta, la[i], 0, empty);
    assert forall|k: int| 0 <= k < ta.len() implies #[trigger] source_satisfied(ta, k, f) by {
        let rk = la[i][k];
        assert(0 <= rk < ta[k].1.len() && accepts(ta[k].0, ta[k].1[rk], f));
    }
    lemma_solution_binds_all(srcs, f);
    assert forall|n: Seq<char>| #[trigger] da.contains(n) implies lookup(f, n) is Some && lookup(g, n) is Some
        && val_eq(lookup(f, n)->Some_0, lookup(g, n)->Some_0) by {
        lemma_same_variables(srcs, perm, n);
        crate::term::lemma_add_new_props(Seq::empty(), source_occurrences(perm));
        lemma_source_name_origin(perm, n);
        let jo = choose|jo: int| 0 <= jo < perm.len() && occurrences(perm[jo].0).contains(n);
        lemma_by_size_keeps(perm, jo);
        let q = choose|q: int| 0 <= q < tb.len() && #[trigger] tb[q] == perm[jo];
        assert(all_bound(g, occurrences(tb[q].0)));
        assert(lookup(g, n) is Some);
    }
}

/// The permutation of row choices pairs the solutions of two searches of the
/// same sources in permuted orders one to one.
proof fn lemma_row_bijection(ta: Seq<SourceV>, tb: Seq<SourceV>, pi: Seq<int>, pii: Seq<int>) -> (beta: Seq<int>)
    requires
        is_permutation(pi, ta.len() as int),
        is_permutation(pii, ta.len() as int),
        forall|q: int| 0 <= q < ta.len() ==> #[trigger] pii[pi[q]] == q,
        forall|m: int| 0 <= m < ta.len() ==> #[trigger] pi[pii[m]] == m,
        tb == permuted(ta, pi),
        ta == permuted(tb, pii),
        sources_real_free(ta),
        sources_real_free(tb),
        !has_err(explore(ta, 0, 0, Seq::empty())),
        !has_err(explore(tb, 0, 0, Seq::empty())),
    ensures
        explore_rows(tb, 0, 0, Seq::empty()).len() == explore_rows(ta, 0, 0, Seq::empty()).len(),
        explore_rows(ta, 0, 0, Seq::empty()).len() == explore(ta, 0, 0, Seq::empty()).len(),
        explore_rows(tb, 0, 0, Seq::empty()).len() == explore(tb, 0, 0, Seq::empty()).len(),
        is_permutation(beta, explore_rows(ta, 0, 0, Seq::empty()).len() as int),
        forall|i: int|
            0 <= i < explore_rows(ta, 0, 0, Seq::empty()).len() ==> #[trigger] explore_rows(tb, 0, 0, Seq::empty())[beta[i]]
                == permuted(explore_rows(ta, 0, 0, Seq::empty())[i], pi),
{
    let n = ta.len() as int;
    let empty: Bindings = Seq::empty();
    let none: Seq<int> = Seq::empty();
    let ea = explore(ta, 0, 0, empty);
    let eb = explore(tb, 0, 0, empty);
    lemma_explore_rows(ta, 0, 0, empty, none);
    lemma_explore_rows(tb, 0, 0, empty, none);
    let la = explore_rows(ta, 0, 0, empty);
    let lb = explore_rows(tb, 0, 0, empty);
    let na = la.len() as int;
    let nb = lb.len() as int;
    let beta_fn = |i: int| choose|j: int| 0 <= j < nb && #[trigger] lb[j] == permuted(la[i], pi);
    assert forall|i: int| 0 <= i < na implies 0 <= #[trigger] beta_fn(i) < nb && lb[beta_fn(i)] == permuted(
        la[i],
        pi,
    ) by {
        lemma_maps_into(ta, tb, pi, i);
    }
    // distinct solutions go to distinct solutions
    assert forall|x: int, y: int| 0 <= x < na && 0 <= y < na && #[trigger] beta_fn(x) == #[trigger] beta_fn(y) implies x
        == y by {
        assert(row_solution(ta, 0, 0, empty, none, la[x], ea[x]));
        assert(row_solution(ta, 0, 0, empty, none, la[y], ea[y]));
        lemma_permuted_back(la[x], pi, pii, n);
        lemma_permuted_back(la[y], pi, pii, n);
        if x != y {
            if x < y {
                assert(la[x] != la[y]);
            } else {
                assert(la[y] != la[x]);
            }
        }
    }
    // every solution of the other search is reached
    let x = vstd::set_lib::set_int_range(0, na);
    let y = x.map(beta_fn);
    assert forall|j: int| 0 <= j < nb implies #[trigger] y.contains(j) by {
        lemma_maps_into(tb, ta, pii, j);
        let i = choose|i: int| 0 <= i < na && #[trigger] la[i] == permuted(lb[j], pii);
        assert(row_solution(tb, 0, 0, empty, none, lb[j], eb[j]));
        lemma_permuted_back(lb[j], pii, pi, n);
        let j2 = beta_fn(i);
        if j2 != j {
            if j2 < j {
                assert(lb[j2] != lb[j]);
            } else {
                assert(lb[j] != lb[j2]);
            }
        }
        assert(x.contains(i));
    }
    // so both searches give as many solutions
    vstd::set_lib::lemma_int_range(0, na);
    vstd::set_lib::lemma_int_range(0, nb);
    assert(y =~= vstd::set_lib::set_int_range(0, nb));
    assert(vstd::relations::injective_on(beta_fn, x));
    vstd::set_lib::lemma_map_size(x, y, beta_fn);
    let beta = Seq::new(na as nat, beta_fn);
    assert(is_permutation(beta, na)) by {
        assert forall|a: int, b: int| 0 <= a < na && 0 <= b < na && #[trigger] beta[a] == #[trigger] beta[b] implies a
            == b by {
            assert(beta_fn(a) == beta_fn(b));
        }
    }
    beta
}

/// The search does not depend on the order of the sources: for sources
/// without `Real` atoms in their rows, searched as given and in a permuted
/// order, when neither search meets a structural error, both give the same
/// number of solutions, and a permutation of the solutions pairs each with the
/// same solution of the other search: the same variables, bound to equal
/// values. Only the order of the solutions, and of each solution's columns
/// (declaration order, see [`lemma_solution_columns`]), may differ.
#[verifier::rlimit(30)]
pub proof fn lemma_search_order_counts(srcs: Seq<SourceV>, p: Seq<int>)
    requires
        is_permutation(p, srcs.len() as int),
        sources_real_free(srcs),
        forall|i: int| 0 <= i < search_results(srcs).len() ==> #[trigger] search_results(srcs)[i] is Ok,
        forall|j: int|
            0 <= j < search_results(permuted(srcs, p)).len() ==> #[trigger] search_results(permuted(srcs, p))[j] is Ok,
    ensures
        search_results(permuted(srcs, p)).len() == search_results(srcs).len(),
        forall|n: Seq<char>|
            #[trigger] declaration_order_spec(srcs).contains(n) <==> declaration_order_spec(permuted(srcs, p)).contains(
                n,
            ),
        exists|beta: Seq<int>|
            {
                &&& is_permutation(beta, search_results(srcs).len() as int)
                &&& forall|i: int|
                    0 <= i < search_results(srcs).len() ==> #[trigger] same_solution(
                        declaration_order_spec(srcs),
                        search_results(srcs)[i],
                        declaration_order_spec(permuted(srcs, p)),
                        search_results(permuted(srcs, p))[beta[i]],
                    )
            },
{
    let n = srcs.len() as int;
    let perm = permuted(srcs, p);
    let pi = lemma_orders_related(srcs, p);
    let pii = lemma_permutation_inverse(pi, n);
    let ta = by_size(srcs);
    let tb = by_size(perm);
    let empty: Bindings = Seq::empty();
    let none: Seq<int> = Seq::empty();
    lemma_by_size_len(srcs);
    lemma_by_size_len(perm);
    assert(ta =~= permuted(tb, pii)) by {
        assert forall|m: int| 0 <= m < n implies ta[m] == permuted(tb, pii)[m] by {
            assert(0 <= pii[m] < n);
            assert(tb[pii[m]] == ta[pi[pii[m]]]);
        }
    }
    lemma_sorted_real_free(srcs);
    assert(sources_real_free(perm)) by {
        assert forall|k: int, r: int| 0 <= k < perm.len() && 0 <= r < perm[k].1.len() implies real_free(
            #[trigger] perm[k].1[r],
        ) by {
            assert(perm[k] == srcs[p[k]]);
        }
    }
    lemma_sorted_real_free(perm);
    let ea = explore(ta, 0, 0, empty);
    let eb = explore(tb, 0, 0, empty);
    assert(!has_err(ea)) by {
        if has_err(ea) {
            let i = choose|i: int| 0 <= i < ea.len() && #[trigger] ea[i] is Err;
            assert(search_results(srcs)[i] is Err);
        }
    }
    assert(!has_err(eb)) by {
        if has_err(eb) {
            let i = choose|i: int| 0 <= i < eb.len() && #[trigger] eb[i] is Err;
            assert(search_results(perm)[i] is Err);
        }
    }
    let beta = lemma_row_bijection(ta, tb, pi, pii);
    let na = explore_rows(ta, 0, 0, empty).len() as int;
    assert(search_results(srcs).len() == na);
    assert(search_results(perm).len() == na);
    assert forall|i: int| 0 <= i < na implies #[trigger] same_solution(
        declaration_order_spec(srcs),
        search_results(srcs)[i],
        declaration_order_spec(perm),
        search_results(perm)[beta[i]],
    ) by {
        lemma_pair_same(srcs, p, pi, i, beta[i]);
    }
    assert forall|v: Seq<char>| #[trigger] declaration_order_spec(srcs).contains(v) <==> declaration_order_spec(
        perm,
    ).contains(v) by {
        if declaration_order_spec(srcs).contains(v) {
            lemma_same_variables(srcs, perm, v);
        }
        if declaration_order_spec(perm).contains(v) {
            lemma_same_variables(perm, srcs, v);
        }
    }
}

} // verus!
