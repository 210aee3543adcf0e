use vstd::prelude::*;

use crate::search::{sources_view, search_results, SearchIterator};
use crate::substitution::{Bindings, Substitution};
use crate::term::Term;
use crate::unify::{get_column, record_get, unify, unify_spec, UnifyErr, UnifyError};
use crate::value::{cols_of, lemma_cols_of, val_of, Val, Value};

verus! {

/// The columns of a matched record followed by the bindings whose names are
/// not columns already, in binding order.
pub open spec fn extend_record(cols: Seq<(Seq<char>, Val)>, s: Bindings) -> Seq<(Seq<char>, Val)>
    decreases s.len(),
{
    if s.len() == 0 {
        cols
    } else {
        let c = extend_record(cols, s.drop_last());
        if record_get(c, s.last().0) is None {
            c.push(s.last())
        } else {
            c
        }
    }
}

/// What filtering does with one input row: `None` drops it; otherwise the row
/// to emit, or the structural error that ends the filter. A matching record
/// gains a column for each variable bound that it does not already have; any
/// other matching row is passed through as it is.
pub open spec fn filter_outcome(p: Term, row: Val) -> Option<Result<Val, UnifyErr>> {
    let (r, s) = unify_spec(p, row, Seq::empty());
    match r {
        Err(e) => Some(Err(e)),
        Ok(false) => None,
        Ok(true) => Some(
            Ok(
                if s.len() == 0 {
                    row
                } else {
                    match row {
                        Val::Record(cols) => Val::Record(extend_record(cols, s)),
                        _ => row,
                    }
                },
            ),
        ),
    }
}

pub open spec fn step_view(r: Option<Result<Value, UnifyError>>) -> Option<Result<Val, UnifyErr>> {
    match r {
        None => None,
        Some(Ok(v)) => Some(Ok(v@)),
        Some(Err(e)) => Some(Err(e@)),
    }
}

/// Filters a stream of rows by a pattern, one row at a time: the caller feeds
/// each input row to [`FilterIterator::step`] and emits what it gives back.
/// After a structural error the filter is done and takes no more rows.
pub struct FilterIterator {
    pattern: Term,
    done: bool,
}

impl FilterIterator {
    pub closed spec fn pattern(&self) -> Term {
        self.pattern
    }

    pub closed spec fn done_spec(&self) -> bool {
        self.done
    }

    /// Whether the filter has ended (after a structural error).
    pub fn is_done(&self) -> (r: bool)
        ensures
            r == self.done_spec(),
    {
        self.done
    }

    /// Feeds one input row (see [`filter_outcome`]).
    pub fn step(&mut self, row: Value) -> (r: Option<Result<Value, UnifyError>>)
        ensures
            final(self).pattern() == old(self).pattern(),
            old(self).done_spec() ==> r is None && final(self).done_spec(),
            !old(self).done_spec() ==> step_view(r) == filter_outcome(old(self).pattern(), row@),
            !old(self).done_spec() ==> final(self).done_spec() == (r matches Some(Err(_))),
    {
        if self.done {
            return None;
        }
        let mut sub = Substitution::new();
        match unify(&self.pattern, &row, &mut sub) {
            Err(e) => {
                self.done = true;
                Some(Err(e))
            },
            Ok(false) => None,
            Ok(true) => {
                let bindings = sub.into_bindings();
                proof {
                    lemma_cols_of(bindings@);
                }
                if bindings.len() == 0 {
                    return Some(Ok(row));
                }
                match row {
                    Value::Record(cols) => {
                        let ghost s = cols_of(bindings@);
                        let ghost c0 = cols_of(cols@);
                        let mut result = cols;
                        let mut i: usize = 0;
                        assert(s.take(0) =~= Seq::<(Seq<char>, Val)>::empty());
                        while i < bindings.len()
                            invariant
                                s == cols_of(bindings@),
                                s.len() == bindings@.len(),
                                forall|k: int|
                                    0 <= k < bindings@.len() ==> #[trigger] s[k] == (
                                        bindings@[k].0@,
                                        val_of(bindings@[k].1),
                                    ),
                                i <= bindings.len(),
                                cols_of(result@) == extend_record(c0, s.take(i as int)),
                            decreases bindings.len() - i,
                        {
                            proof {
                                assert(s.take(i + 1).drop_last() =~= s.take(i as int));
                                assert(s.take(i + 1).last() == s[i as int]);
                            }
                            let absent = get_column(&result, &bindings[i].0).is_none();
                            if absent {
                                let ghost before = result@;
                                result.push((bindings[i].0.clone(), bindings[i].1.clone()));
                                assert(result@.drop_last() =~= before);
                            }
                            i = i + 1;
                        }
                        assert(s.take(i as int) =~= s);
                        Some(Ok(Value::Record(result)))
                    },
                    other => Some(Ok(other)),
                }
            },
        }
    }
}

/// The built-in logic engine: unification with depth-first backtracking.
pub struct NativeEngine;

impl NativeEngine {
    /// A filter of input rows by `pattern`.
    pub fn filter(&self, pattern: Term) -> (r: FilterIterator)
        ensures
            r.pattern() == pattern,
            !r.done_spec(),
    {
        FilterIterator { pattern, done: false }
    }

    /// A search across `sources` (see [`SearchIterator::new`]).
    pub fn search(&self, sources: Vec<(Term, Vec<Value>)>) -> (r: SearchIterator)
        ensures
            r.wf(),
            r.pending() == search_results(sources_view(sources@)),
    {
        SearchIterator::new(sources)
    }
}

} // verus!

verus! {

proof fn lemma_extend_record(cols: Seq<(Seq<char>, Val)>, s: Bindings)
    ensures
        cols.len() <= extend_record(cols, s).len(),
        extend_record(cols, s).subrange(0, cols.len() as int) == cols,
        forall|i: int| 0 <= i < s.len() ==> #[trigger] record_get(extend_record(cols, s), s[i].0) is Some,
    decreases s.len(),
{
    if s.len() == 0 {
        assert(cols.subrange(0, cols.len() as int) =~= cols);
    } else {
        let rest = s.drop_last();
        lemma_extend_record(cols, rest);
        let c = extend_record(cols, rest);
        assert forall|i: int| 0 <= i < s.len() implies #[trigger] record_get(extend_record(cols, s), s[i].0) is Some by {
            if i < s.len() - 1 {
                assert(rest[i] == s[i]);
                assert(record_get(c, s[i].0) is Some);
                if record_get(c, s.last().0) is None {
                    let pushed = c.push(s.last());
                    assert(pushed.drop_last() =~= c);
                }
            } else {
                if record_get(c, s.last().0) is None {
                    let pushed = c.push(s.last());
                    assert(pushed.last() == s.last());
                }
            }
        }
        if record_get(c, s.last().0) is None {
            assert(c.push(s.last()).subrange(0, cols.len() as int) =~= c.subrange(0, cols.len() as int));
        }
    }
}

/// Filtering keeps a matched record's columns, in place, and adds a column for
/// every variable the match bound that the record lacked: each bound variable
/// can be read from the output row. A matched row of any other kind passes
/// through unchanged.
pub proof fn lemma_filter_keeps_row(p: Term, row: Val)
    requires
        filter_outcome(p, row) matches Some(Ok(_)),
    ensures
        match row {
            Val::Record(cols) => filter_outcome(p, row) matches Some(Ok(Val::Record(out))) && cols.len() <= out.len()
                && out.subrange(0, cols.len() as int) == cols && forall|i: int|
                0 <= i < unify_spec(p, row, Seq::empty()).1.len() ==> #[trigger] record_get(
                    out,
                    unify_spec(p, row, Seq::empty()).1[i].0,
                ) is Some,
            _ => filter_outcome(p, row) == Some(Ok::<Val, UnifyErr>(row)),
        },
{
    let s = unify_spec(p, row, Seq::empty()).1;
    match row {
        Val::Record(cols) => {
            if s.len() == 0 {
                assert(cols.subrange(0, cols.len() as int) =~= cols);
            } else {
                lemma_extend_record(cols, s);
            }
        },
        _ => {},
    }
}

} // verus!
