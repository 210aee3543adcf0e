use vstd::prelude::*;

use crate::convert::{double_ampersand_message, is_fact_ref, pattern_of, value_to_pattern};
use crate::store::{rows_of, FactSet, FactStore};
use crate::term::{term_view, Pat, Term};
use crate::text::{chars_of, text_lt};
use crate::unify::{get_column, record_get};
use crate::value::{cols_of, lemma_cols_of, lemma_vals_of, val_of, vals_of, Val, Value};

verus! {

/// A source as planned: the pattern and the rows it is matched against.
pub type PlannedSource = (Pat, Seq<Val>);

pub open spec fn planned_sources(v: Seq<(Term, Vec<Value>)>) -> Seq<PlannedSource> {
    v.map_values(|x: (Term, Vec<Value>)| (term_view(x.0), vals_of(x.1@)))
}

/// What `solve` is to do.
pub enum SolvePlan {
    /// Search across these sources.
    Search(Vec<(Term, Vec<Value>)>),
    /// Filter the pipeline input by this pattern.
    Filter(Term),
}

pub enum PlanV {
    Search(Seq<PlannedSource>),
    Filter(Pat),
}

impl View for SolvePlan {
    type V = PlanV;

    open spec fn view(&self) -> PlanV {
        match self {
            SolvePlan::Search(s) => PlanV::Search(planned_sources(s@)),
            SolvePlan::Filter(t) => PlanV::Filter(term_view(*t)),
        }
    }
}

/// Why `solve` cannot run.
#[derive(Debug)]
pub enum SolveError {
    /// An `@name` source names no stored fact set.
    UnknownFactSet(String),
    /// A pattern names a source that the pipeline record lacks.
    MissingSource(String),
    /// A pipeline source is not a table.
    NotATable(String),
    /// A pattern cannot be parsed; the message says why.
    InvalidPattern(String),
}

pub enum SolveErr {
    UnknownFactSet(Seq<char>),
    MissingSource(Seq<char>),
    NotATable(Seq<char>),
    InvalidPattern(Seq<char>),
}

impl View for SolveError {
    type V = SolveErr;

    open spec fn view(&self) -> SolveErr {
        match self {
            SolveError::UnknownFactSet(s) => SolveErr::UnknownFactSet(s@),
            SolveError::MissingSource(s) => SolveErr::MissingSource(s@),
            SolveError::NotATable(s) => SolveErr::NotATable(s@),
            SolveError::InvalidPattern(s) => SolveErr::InvalidPattern(s@),
        }
    }
}

/// A data source: a table, or an `@`-prefixed reference to a fact set.
pub open spec fn data_source(v: Val) -> bool {
    match v {
        Val::List(_) => true,
        Val::Str(s) => is_fact_ref(s),
        _ => false,
    }
}

/// Something that looks like a pattern: a record, or a non-empty list whose
/// first item is a string that is not a fact reference (a table holds records).
pub open spec fn pattern_like(v: Val) -> bool {
    match v {
        Val::Record(_) => true,
        Val::List(items) => items.len() > 0 && items[0] is Str && !is_fact_ref(items[0]->Str_0),
        _ => false,
    }
}

/// The rows of a data source: a table's items, or the stored fact set.
pub open spec fn resolve_spec(v: Val, store: Seq<FactSet>) -> Result<Seq<Val>, SolveErr> {
    match v {
        Val::List(items) => Ok(items),
        Val::Str(s) => match rows_of(store, s.skip(1)) {
            Some(rows) => Ok(rows),
            None => Err(SolveErr::UnknownFactSet(s.skip(1))),
        },
        _ => Ok(Seq::empty()),
    }
}

pub open spec fn invalid_pattern() -> SolveErr {
    SolveErr::InvalidPattern(double_ampersand_message())
}

/// The sources of an inline list of `[source, pattern, ...]` pairs, in order;
/// the first failure, a data source before its pattern, is the error.
pub open spec fn pair_sources(items: Seq<Val>, store: Seq<FactSet>) -> Result<Seq<PlannedSource>, SolveErr>
    decreases items.len(),
{
    if items.len() < 2 {
        Ok(Seq::empty())
    } else {
        match resolve_spec(items[0], store) {
            Err(e) => Err(e),
            Ok(rows) => match pattern_of(items[1]) {
                None => Err(invalid_pattern()),
                Some(p) => match pair_sources(items.skip(2), store) {
                    Err(e) => Err(e),
                    Ok(rest) => Ok(seq![(p, rows)] + rest),
                },
            },
        }
    }
}

/// An argument is an inline multi-source list when it is a list of at least
/// two items, an even number, alternating data sources and patterns.
pub open spec fn inline_pairs(items: Seq<Val>) -> bool {
    &&& items.len() >= 2
    &&& items.len() % 2 == 0
    &&& forall|i: int|
        0 <= i < items.len() && i % 2 == 0 ==> data_source(#[trigger] items[i]) && pattern_like(
            items[i + 1],
        )
}

/// The sources of an inline multi-source argument, `None` when it is not one.
pub open spec fn inline_sources(v: Val, store: Seq<FactSet>) -> Result<Option<Seq<PlannedSource>>, SolveErr> {
    match v {
        Val::List(items) => {
            if inline_pairs(items) {
                match pair_sources(items, store) {
                    Ok(s) => Ok(Some(s)),
                    Err(e) => Err(e),
                }
            } else {
                Ok(None)
            }
        },
        _ => Ok(None),
    }
}

/// The sources named by a record-of-patterns, taken from a pipeline record of tables.
pub open spec fn pipeline_sources(input: Seq<(Seq<char>, Val)>, patterns: Seq<(Seq<char>, Val)>) -> Result<
    Seq<PlannedSource>,
    SolveErr,
>
    decreases patterns.len(),
{
    if patterns.len() == 0 {
        Ok(Seq::empty())
    } else {
        let name = patterns[0].0;
        match record_get(input, name) {
            None => Err(SolveErr::MissingSource(name)),
            Some(Val::List(rows)) => match pattern_of(patterns[0].1) {
                None => Err(invalid_pattern()),
                Some(p) => match pipeline_sources(input, patterns.drop_first()) {
                    Err(e) => Err(e),
                    Ok(rest) => Ok(seq![(p, rows)] + rest),
                },
            },
            Some(_) => Err(SolveErr::NotATable(name)),
        }
    }
}

/// The sources named by a record-of-patterns, taken from the fact store.
pub open spec fn stored_sources(patterns: Seq<(Seq<char>, Val)>, store: Seq<FactSet>) -> Result<
    Seq<PlannedSource>,
    SolveErr,
>
    decreases patterns.len(),
{
    if patterns.len() == 0 {
        Ok(Seq::empty())
    } else {
        match pattern_of(patterns[0].1) {
            None => Err(invalid_pattern()),
            Some(p) => match stored_sources(patterns.drop_first(), store) {
                Err(e) => Err(e),
                Ok(rest) => Ok(seq![(p, rows_of(store, patterns[0].0)->0)] + rest),
            },
        }
    }
}

pub open spec fn filter_plan(v: Val) -> Result<PlanV, SolveErr> {
    match pattern_of(v) {
        Some(p) => Ok(PlanV::Filter(p)),
        None => Err(invalid_pattern()),
    }
}

/// What `solve` does with its argument `pattern`, the pipeline input when it
/// is a single value (`input`), and the stored fact sets.
///
/// 1. An inline list of `[source, pattern, ...]` pairs is a search across them.
/// 2. Any other non-record argument filters the input.
/// 3. A non-empty record whose values are all records is a search: across the
///    tables of a pipeline record that has a table under every key, or else
///    across stored fact sets when every key names one.
/// 4. Otherwise the record filters the input.
pub open spec fn solve_plan(pattern: Val, input: Option<Val>, store: Seq<FactSet>) -> Result<PlanV, SolveErr> {
    match inline_sources(pattern, store) {
        Err(e) => Err(e),
        Ok(Some(s)) => Ok(PlanV::Search(s)),
        Ok(None) => match pattern {
            Val::Record(cols) => {
                if cols.len() > 0 && forall|i: int| 0 <= i < cols.len() ==> #[trigger] cols[i].1 is Record {
                    if input_has_sources(input, cols) {
                        match pipeline_sources(input->0->Record_0, cols) {
                            Ok(s) => Ok(PlanV::Search(s)),
                            Err(e) => Err(e),
                        }
                    } else if forall|i: int| 0 <= i < cols.len() ==> #[trigger] rows_of(store, cols[i].0) is Some {
                        match stored_sources(cols, store) {
                            Ok(s) => Ok(PlanV::Search(s)),
                            Err(e) => Err(e),
                        }
                    } else {
                        filter_plan(pattern)
                    }
                } else {
                    filter_plan(pattern)
                }
            },
            _ => filter_plan(pattern),
        },
    }
}

/// The pipeline input is a record with a table under every key of `patterns`.
pub open spec fn input_has_sources(input: Option<Val>, patterns: Seq<(Seq<char>, Val)>) -> bool {
    match input {
        Some(Val::Record(inp)) => forall|i: int|
            0 <= i < patterns.len() ==> #[trigger] record_get(inp, patterns[i].0) matches Some(
                Val::List(_),
            ),
        _ => false,
    }
}

} // verus!

verus! {

proof fn lemma_planned_push(v: Seq<(Term, Vec<Value>)>, x: (Term, Vec<Value>))
    ensures
        planned_sources(v.push(x)) == planned_sources(v).push((term_view(x.0), vals_of(x.1@))),
{
    assert(planned_sources(v.push(x)) =~= planned_sources(v).push((term_view(x.0), vals_of(x.1@))));
}

/// Whether a value is a data source (see [`data_source`]).
fn is_data_source(v: &Value) -> (r: bool)
    ensures
        r == data_source(v@),
{
    match v {
        Value::List(_) => true,
        Value::Str(s) => crate::convert::starts_with_at(s),
        _ => false,
    }
}

/// Whether a value looks like a pattern (see [`pattern_like`]).
fn is_pattern_like(v: &Value) -> (r: bool)
    ensures
        r == pattern_like(v@),
{
    match v {
        Value::Record(_) => true,
        Value::List(vals) => {
            proof {
                lemma_vals_of(vals@);
            }
            if vals.len() == 0 {
                return false;
            }
            match &vals[0] {
                Value::Str(s) => !crate::convert::starts_with_at(s),
                _ => false,
            }
        },
        _ => false,
    }
}

/// The rows of a data source (see [`resolve_spec`]).
fn resolve_data_source(v: &Value, store: &FactStore) -> (r: Result<Vec<Value>, SolveError>)
    requires
        store.wf(),
        data_source(v@),
    ensures
        match r {
            Ok(rows) => resolve_spec(v@, store@) == Ok::<Seq<Val>, SolveErr>(vals_of(rows@)),
            Err(e) => resolve_spec(v@, store@) == Err::<Seq<Val>, SolveErr>(e@),
        },
{
    match v {
        Value::List(vals) => Ok(crate::value::clone_values(vals)),
        Value::Str(s) => {
            let cs = chars_of(s.as_str());
            let name = crate::text::string_from(&cs, 1, cs.len());
            assert(name@ =~= s@.skip(1));
            match store.get(name.as_str()) {
                Some(rows) => Ok(crate::value::clone_values(rows)),
                None => Err(SolveError::UnknownFactSet(name)),
            }
        },
        _ => Ok(Vec::new()),
    }
}

/// The sources of an inline `[source, pattern, ...]` list, or `None` when the
/// argument is not one (see [`inline_sources`]).
fn sources_from_inline_list(val: &Value, store: &FactStore) -> (r: Result<
    Option<Vec<(Term, Vec<Value>)>>,
    SolveError,
>)
    requires
        store.wf(),
    ensures
        match r {
            Ok(Some(s)) => inline_sources(val@, store@) == Ok::<Option<Seq<PlannedSource>>, SolveErr>(
                Some(planned_sources(s@)),
            ),
            Ok(None) => inline_sources(val@, store@) == Ok::<Option<Seq<PlannedSource>>, SolveErr>(None),
            Err(e) => inline_sources(val@, store@) == Err::<Option<Seq<PlannedSource>>, SolveErr>(e@),
        },
{
    let vals = match val {
        Value::List(vals) => vals,
        _ => {
            return Ok(None);
        },
    };
    proof {
        lemma_vals_of(vals@);
    }
    let ghost items = vals_of(vals@);
    if vals.len() < 2 || vals.len() % 2 != 0 {
        return Ok(None);
    }
    let mut i: usize = 0;
    while i < vals.len()
        invariant
            *val == Value::List(*vals),
            items == vals_of(vals@),
            items.len() == vals@.len(),
            forall|k: int| 0 <= k < vals@.len() ==> #[trigger] items[k] == val_of(vals@[k]),
            vals.len() % 2 == 0,
            i % 2 == 0,
            i <= vals.len(),
            forall|k: int|
                0 <= k < i && k % 2 == 0 ==> data_source(#[trigger] items[k]) && pattern_like(items[k + 1]),
        decreases vals.len() - i,
    {
        if !is_data_source(&vals[i]) || !is_pattern_like(&vals[i + 1]) {
            assert(!inline_pairs(items) ) by {
                assert(!(data_source(items[i as int]) && pattern_like(items[i + 1])));
            }
            return Ok(None);
        }
        assert(data_source(items[i as int]) && pattern_like(items[i + 1]));
        assert forall|k: int| 0 <= k < i + 2 && k % 2 == 0 implies data_source(#[trigger] items[k])
            && pattern_like(items[k + 1]) by {
            if k != i {
                assert(k < i);
            }
        }
        i = i + 2;
    }
    assert(inline_pairs(items));
    let mut sources: Vec<(Term, Vec<Value>)> = Vec::new();
    let mut i: usize = 0;
    assert(items.skip(0) =~= items);
    assert(planned_sources(sources@) =~= Seq::<PlannedSource>::empty());
    while i < vals.len()
        invariant
            *val == Value::List(*vals),
            items == vals_of(vals@),
            items.len() == vals@.len(),
            forall|k: int| 0 <= k < vals@.len() ==> #[trigger] items[k] == val_of(vals@[k]),
            inline_pairs(items),
            store.wf(),
            i % 2 == 0,
            i <= vals.len(),
            pair_sources(items, store@) == match pair_sources(items.skip(i as int), store@) {
                Err(e) => Err(e),
                Ok(rest) => Ok(planned_sources(sources@) + rest),
            },
        decreases vals.len() - i,
    {
        proof {
            assert(items.skip(i as int)[0] == items[i as int]);
            assert(items.skip(i as int)[1] == items[i + 1]);
            assert(items.skip(i as int).skip(2) =~= items.skip(i + 2));
            assert(data_source(items[i as int]));
        }
        let data = match resolve_data_source(&vals[i], store) {
            Ok(d) => d,
            Err(e) => {
                return Err(e);
            },
        };
        let pattern = match value_to_pattern(&vals[i + 1]) {
            Ok(p) => p,
            Err(e) => {
                return Err(SolveError::InvalidPattern(e));
            },
        };
        let ghost before = sources@;
        let ghost entry = (term_view(pattern), vals_of(data@));
        proof {
            lemma_planned_push(before, (pattern, data));
        }
        sources.push((pattern, data));
        proof {
            match pair_sources(items.skip(i + 2), store@) {
                Err(_) => {},
                Ok(rest) => {
                    assert(planned_sources(before) + (seq![entry] + rest) =~= planned_sources(sources@) + rest);
                },
            }
        }
        i = i + 2;
    }
    assert(items.skip(i as int) =~= Seq::<Val>::empty());
    assert(planned_sources(sources@) + Seq::<PlannedSource>::empty() =~= planned_sources(sources@));
    Ok(Some(sources))
}

/// Whether the pipeline record has a table under every key of `patterns`
/// (see [`input_has_sources`]).
fn has_all_tables(input: &Vec<(String, Value)>, patterns: &Vec<(String, Value)>) -> (r: bool)
    ensures
        r == input_has_sources(Some(Val::Record(cols_of(input@))), cols_of(patterns@)),
{
    proof {
        lemma_cols_of(patterns@);
    }
    let ghost ps = cols_of(patterns@);
    let ghost inp = cols_of(input@);
    let mut i: usize = 0;
    while i < patterns.len()
        invariant
            ps == cols_of(patterns@),
            inp == cols_of(input@),
            ps.len() == patterns@.len(),
            forall|k: int| 0 <= k < patterns@.len() ==> #[trigger] ps[k] == (patterns@[k].0@, val_of(patterns@[k].1)),
            i <= patterns.len(),
            forall|k: int| 0 <= k < i ==> #[trigger] record_get(inp, ps[k].0) matches Some(Val::List(_)),
        decreases patterns.len() - i,
    {
        let found = match get_column(input, &patterns[i].0) {
            Some(Value::List(_)) => true,
            _ => false,
        };
        if !found {
            assert(!(record_get(inp, ps[i as int].0) matches Some(Val::List(_))));
            return false;
        }
        i = i + 1;
    }
    true
}

/// The sources named by a record of patterns, taken from a pipeline record of
/// tables (see [`pipeline_sources`]).
fn sources_from_pipeline(input: &Vec<(String, Value)>, patterns: &Vec<(String, Value)>) -> (r: Result<
    Vec<(Term, Vec<Value>)>,
    SolveError,
>)
    ensures
        match r {
            Ok(s) => pipeline_sources(cols_of(input@), cols_of(patterns@)) == Ok::<Seq<PlannedSource>, SolveErr>(
                planned_sources(s@),
            ),
            Err(e) => pipeline_sources(cols_of(input@), cols_of(patterns@)) == Err::<Seq<PlannedSource>, SolveErr>(e@),
        },
{
    proof {
        lemma_cols_of(patterns@);
    }
    let ghost ps = cols_of(patterns@);
    let ghost inp = cols_of(input@);
    let mut sources: Vec<(Term, Vec<Value>)> = Vec::new();
    let mut i: usize = 0;
    assert(ps.skip(0) =~= ps);
    assert(planned_sources(sources@) =~= Seq::<PlannedSource>::empty());
    while i < patterns.len()
        invariant
            ps == cols_of(patterns@),
            inp == cols_of(input@),
            ps.len() == patterns@.len(),
            forall|k: int| 0 <= k < patterns@.len() ==> #[trigger] ps[k] == (patterns@[k].0@, val_of(patterns@[k].1)),
            i <= patterns.len(),
            pipeline_sources(inp, ps) == match pipeline_sources(inp, ps.skip(i as int)) {
                Err(e) => Err(e),
                Ok(rest) => Ok(planned_sources(sources@) + rest),
            },
        decreases patterns.len() - i,
    {
        proof {
            assert(ps.skip(i as int)[0] == ps[i as int]);
            assert(ps.skip(i as int).drop_first() =~= ps.skip(i + 1));
        }
        let name = &patterns[i].0;
        let data = match get_column(input, name) {
            None => {
                return Err(SolveError::MissingSource(name.clone()));
            },
            Some(Value::List(vals)) => crate::value::clone_values(vals),
            Some(_) => {
                return Err(SolveError::NotATable(name.clone()));
            },
        };
        let pattern = match value_to_pattern(&patterns[i].1) {
            Ok(p) => p,
            Err(e) => {
                return Err(SolveError::InvalidPattern(e));
            },
        };
        let ghost before = sources@;
        let ghost entry = (term_view(pattern), vals_of(data@));
        proof {
            lemma_planned_push(before, (pattern, data));
        }
        sources.push((pattern, data));
        proof {
            match pipeline_sources(inp, ps.skip(i + 1)) {
                Err(_) => {},
                Ok(rest) => {
                    assert(planned_sources(before) + (seq![entry] + rest) =~= planned_sources(sources@) + rest);
                },
            }
        }
        i = i + 1;
    }
    assert(ps.skip(i as int) =~= Seq::<(Seq<char>, Val)>::empty());
    assert(planned_sources(sources@) + Seq::<PlannedSource>::empty() =~= planned_sources(sources@));
    Ok(sources)
}

/// Whether every key of `patterns` names a stored fact set.
fn all_stored(patterns: &Vec<(String, Value)>, store: &FactStore) -> (r: bool)
    requires
        store.wf(),
    ensures
        r == forall|i: int| 0 <= i < patterns@.len() ==> #[trigger] rows_of(store@, cols_of(patterns@)[i].0) is Some,
{
    proof {
        lemma_cols_of(patterns@);
    }
    let ghost ps = cols_of(patterns@);
    let mut i: usize = 0;
    while i < patterns.len()
        invariant
            store.wf(),
            ps == cols_of(patterns@),
            ps.len() == patterns@.len(),
            forall|k: int| 0 <= k < patterns@.len() ==> #[trigger] ps[k] == (patterns@[k].0@, val_of(patterns@[k].1)),
            i <= patterns.len(),
            forall|k: int| 0 <= k < i ==> #[trigger] rows_of(store@, ps[k].0) is Some,
        decreases patterns.len() - i,
    {
        if store.get(patterns[i].0.as_str()).is_none() {
            assert(rows_of(store@, ps[i as int].0) is None);
            return false;
        }
        i = i + 1;
    }
    true
}

/// The sources named by a record of patterns whose keys all name stored fact
/// sets (see [`stored_sources`]).
fn sources_from_store(patterns: &Vec<(String, Value)>, store: &FactStore) -> (r: Result<
    Vec<(Term, Vec<Value>)>,
    SolveError,
>)
    requires
        store.wf(),
        forall|i: int| 0 <= i < patterns@.len() ==> #[trigger] rows_of(store@, cols_of(patterns@)[i].0) is Some,
    ensures
        match r {
            Ok(s) => stored_sources(cols_of(patterns@), store@) == Ok::<Seq<PlannedSource>, SolveErr>(
                planned_sources(s@),
            ),
            Err(e) => stored_sources(cols_of(patterns@), store@) == Err::<Seq<PlannedSource>, SolveErr>(e@),
        },
{
    proof {
        lemma_cols_of(patterns@);
    }
    let ghost ps = cols_of(patterns@);
    let mut sources: Vec<(Term, Vec<Value>)> = Vec::new();
    let mut i: usize = 0;
    assert(ps.skip(0) =~= ps);
    assert(planned_sources(sources@) =~= Seq::<PlannedSource>::empty());
    while i < patterns.len()
        invariant
            store.wf(),
            ps == cols_of(patterns@),
            ps.len() == patterns@.len(),
            forall|k: int| 0 <= k < patterns@.len() ==> #[trigger] ps[k] == (patterns@[k].0@, val_of(patterns@[k].1)),
            forall|k: int| 0 <= k < patterns@.len() ==> #[trigger] rows_of(store@, ps[k].0) is Some,
            i <= patterns.len(),
            stored_sources(ps, store@) == match stored_sources(ps.skip(i as int), store@) {
                Err(e) => Err(e),
                Ok(rest) => Ok(planned_sources(sources@) + rest),
            },
        decreases patterns.len() - i,
    {
        proof {
            assert(ps.skip(i as int)[0] == ps[i as int]);
            assert(ps.skip(i as int).drop_first() =~= ps.skip(i + 1));
        }
        let data = match store.get(patterns[i].0.as_str()) {
            Some(rows) => crate::value::clone_values(rows),
            None => Vec::new(),
        };
        assert(rows_of(store@, ps[i as int].0) is Some);
        let pattern = match value_to_pattern(&patterns[i].1) {
            Ok(p) => p,
            Err(e) => {
                return Err(SolveError::InvalidPattern(e));
            },
        };
        let ghost before = sources@;
        let ghost entry = (term_view(pattern), vals_of(data@));
        proof {
            lemma_planned_push(before, (pattern, data));
        }
        sources.push((pattern, data));
        proof {
            match stored_sources(ps.skip(i + 1), store@) {
                Err(_) => {},
                Ok(rest) => {
                    assert(planned_sources(before) + (seq![entry] + rest) =~= planned_sources(sources@) + rest);
                },
            }
        }
        i = i + 1;
    }
    assert(ps.skip(i as int) =~= Seq::<(Seq<char>, Val)>::empty());
    assert(planned_sources(sources@) + Seq::<PlannedSource>::empty() =~= planned_sources(sources@));
    Ok(sources)
}

pub open spec fn input_view(input: Option<&Value>) -> Option<Val> {
    match input {
        Some(v) => Some(v@),
        None => None,
    }
}

pub open spec fn plan_result_view(r: Result<SolvePlan, SolveError>) -> Result<PlanV, SolveErr> {
    match r {
        Ok(p) => Ok(p@),
        Err(e) => Err(e@),
    }
}

/// The `solve` command: finds the combinations of rows that a pattern accepts.
pub struct Solve;

impl Solve {
    /// Decides what `solve` does with its `pattern` argument, given the
    /// pipeline input when that is a single value and the stored fact sets
    /// (see [`solve_plan`]): the sources to search across, or the pattern to
    /// filter the input rows by.
    pub fn plan(&self, pattern: &Value, input: Option<&Value>, store: &FactStore) -> (r: Result<SolvePlan, SolveError>)
        requires
            store.wf(),
        ensures
            plan_result_view(r) == solve_plan(pattern@, input_view(input), store@),
    {
        match sources_from_inline_list(pattern, store) {
            Err(e) => {
                return Err(e);
            },
            Ok(Some(s)) => {
                return Ok(SolvePlan::Search(s));
            },
            Ok(None) => {},
        }
        if let Value::Record(cols) = pattern {
            proof {
                lemma_cols_of(cols@);
            }
            let ghost cs = cols_of(cols@);
            let mut all_records = cols.len() > 0;
            let mut i: usize = 0;
            while i < cols.len()
                invariant
                    cs == cols_of(cols@),
                    cs.len() == cols@.len(),
                    forall|k: int| 0 <= k < cols@.len() ==> #[trigger] cs[k] == (cols@[k].0@, val_of(cols@[k].1)),
                    i <= cols.len(),
                    all_records == (cols@.len() > 0 && forall|k: int| 0 <= k < i ==> #[trigger] cs[k].1 is Record),
                decreases cols.len() - i,
            {
                assert(cs[i as int].1 == val_of(cols@[i as int].1));
                match &cols[i].1 {
                    Value::Record(_) => {
                        assert(cs[i as int].1 is Record);
                    },
                    _ => {
                        assert(!(cs[i as int].1 is Record));
                        all_records = false;
                    },
                }
                i = i + 1;
            }
            if all_records {
                let from_input = match input {
                    Some(Value::Record(inp)) => {
                        if has_all_tables(inp, cols) {
                            Some(inp)
                        } else {
                            None
                        }
                    },
                    _ => None,
                };
                match from_input {
                    Some(inp) => {
                        return match sources_from_pipeline(inp, cols) {
                            Ok(s) => Ok(SolvePlan::Search(s)),
                            Err(e) => Err(e),
                        };
                    },
                    None => {},
                }
                if all_stored(cols, store) {
                    return match sources_from_store(cols, store) {
                        Ok(s) => Ok(SolvePlan::Search(s)),
                        Err(e) => Err(e),
                    };
                }
            }
        }
        match value_to_pattern(pattern) {
            Ok(t) => Ok(SolvePlan::Filter(t)),
            Err(e) => Err(SolveError::InvalidPattern(e)),
        }
    }
}

/// What `facts` gives back.
pub enum FactsOutput {
    /// Name and row count of fact sets, ordered by name.
    Sets(Vec<(String, usize)>),
    /// The fact set removed: its name and row count.
    Dropped(String, usize),
    /// Rows: those retrieved, or the input passed through after storing it.
    Rows(Vec<Value>),
}

pub enum FactsOut {
    Sets(Seq<(Seq<char>, nat)>),
    Dropped(Seq<char>, nat),
    Rows(Seq<Val>),
}

impl View for FactsOutput {
    type V = FactsOut;

    open spec fn view(&self) -> FactsOut {
        match self {
            FactsOutput::Sets(l) => FactsOut::Sets(l@.map_values(|e: (String, usize)| (e.0@, e.1 as nat))),
            FactsOutput::Dropped(n, c) => FactsOut::Dropped(n@, *c as nat),
            FactsOutput::Rows(v) => FactsOut::Rows(vals_of(v@)),
        }
    }
}

/// Why `facts` cannot do what it was asked.
#[derive(Debug)]
pub enum FactsError {
    /// `--drop` was given without a fact set name.
    DropNeedsName,
    /// No fact set has this name.
    UnknownFactSet(String),
}

pub enum FactsErr {
    DropNeedsName,
    UnknownFactSet(Seq<char>),
}

impl View for FactsError {
    type V = FactsErr;

    open spec fn view(&self) -> FactsErr {
        match self {
            FactsError::DropNeedsName => FactsErr::DropNeedsName,
            FactsError::UnknownFactSet(n) => FactsErr::UnknownFactSet(n@),
        }
    }
}

pub open spec fn facts_result_view(r: Result<FactsOutput, FactsError>) -> Result<FactsOut, FactsErr> {
    match r {
        Ok(o) => Ok(o@),
        Err(e) => Err(e@),
    }
}

/// The names of a listing ascend strictly: ordered by name, each name once.
pub open spec fn names_ascend(l: Seq<(Seq<char>, nat)>) -> bool {
    forall|i: int, j: int| 0 <= i < j < l.len() ==> text_lt(#[trigger] l[i].0, #[trigger] l[j].0)
}

/// Name and row count of each fact set, in store order.
pub open spec fn summary(s: Seq<FactSet>) -> Seq<(Seq<char>, nat)> {
    s.map_values(|f: FactSet| (f.0, f.1.len()))
}

/// What `facts` answers, given the store before the call, the optional fact
/// set name, the `--drop` and `--clear` switches and the pipeline input (when
/// there is one).
///
/// `--clear` lists every fact set and empties the store; `--drop` removes the
/// named set and reports its size; no name lists the sets; a name without
/// input retrieves that set; a name with input stores the input and passes it
/// through.
pub open spec fn facts_reply(
    store: Seq<FactSet>,
    name: Option<Seq<char>>,
    drop: bool,
    clear: bool,
    input: Option<Seq<Val>>,
) -> Result<FactsOut, FactsErr> {
    if clear {
        Ok(FactsOut::Sets(summary(store)))
    } else if drop {
        match name {
            None => Err(FactsErr::DropNeedsName),
            Some(n) => match rows_of(store, n) {
                None => Err(FactsErr::UnknownFactSet(n)),
                Some(rows) => Ok(FactsOut::Dropped(n, rows.len())),
            },
        }
    } else {
        match name {
            None => Ok(FactsOut::Sets(summary(store))),
            Some(n) => match input {
                None => match rows_of(store, n) {
                    None => Err(FactsErr::UnknownFactSet(n)),
                    Some(rows) => Ok(FactsOut::Rows(rows)),
                },
                Some(rows) => Ok(FactsOut::Rows(rows)),
            },
        }
    }
}

/// The rows stored under `k` after `facts` ran (see [`facts_reply`]).
pub open spec fn facts_after(
    store: Seq<FactSet>,
    name: Option<Seq<char>>,
    drop: bool,
    clear: bool,
    input: Option<Seq<Val>>,
    k: Seq<char>,
) -> Option<Seq<Val>> {
    if clear {
        None
    } else if drop {
        match name {
            Some(n) => if k == n {
                None
            } else {
                rows_of(store, k)
            },
            None => rows_of(store, k),
        }
    } else {
        match (name, input) {
            (Some(n), Some(rows)) => if k == n {
                Some(rows)
            } else {
                rows_of(store, k)
            },
            _ => rows_of(store, k),
        }
    }
}

pub open spec fn name_view(name: Option<String>) -> Option<Seq<char>> {
    match name {
        Some(n) => Some(n@),
        None => None,
    }
}

pub open spec fn rows_view(input: Option<Vec<Value>>) -> Option<Seq<Val>> {
    match input {
        Some(v) => Some(vals_of(v@)),
        None => None,
    }
}

fn fact_sets(store: &FactStore) -> (r: FactsOutput)
    requires
        store.wf(),
    ensures
        r@ == FactsOut::Sets(summary(store@)),
        names_ascend(summary(store@)),
{
    let l = store.list();
    proof {
        store.lemma_sorted();
    }
    assert(l@.map_values(|e: (String, usize)| (e.0@, e.1 as nat)) =~= summary(store@));
    FactsOutput::Sets(l)
}

/// The `facts` command: stores, retrieves and manages named fact sets.
pub struct Facts;

impl Facts {
    /// Runs `facts` on the store (see [`facts_reply`] and [`facts_after`]).
    pub fn run(
        &self,
        store: &mut FactStore,
        name: Option<String>,
        drop: bool,
        clear: bool,
        input: Option<Vec<Value>>,
    ) -> (r: Result<FactsOutput, FactsError>)
        requires
            old(store).wf(),
        ensures
            final(store).wf(),
            facts_result_view(r) == facts_reply(old(store)@, name_view(name), drop, clear, rows_view(input)),
            forall|k: Seq<char>|
                #[trigger] rows_of(final(store)@, k) == facts_after(
                    old(store)@,
                    name_view(name),
                    drop,
                    clear,
                    rows_view(input),
                    k,
                ),
            clear ==> final(store)@ == Seq::<FactSet>::empty(),
            r is Err ==> final(store)@ == old(store)@,
            facts_result_view(r) matches Ok(FactsOut::Sets(l)) ==> names_ascend(l),
    {
        if clear {
            let out = fact_sets(store);
            store.clear_all();
            return Ok(out);
        }
        if drop {
            let name = match name {
                Some(n) => n,
                None => {
                    return Err(FactsError::DropNeedsName);
                },
            };
            let count = match store.get(name.as_str()) {
                Some(rows) => {
                    proof {
                        crate::value::lemma_vals_of(rows@);
                    }
                    rows.len()
                },
                None => {
                    return Err(FactsError::UnknownFactSet(name));
                },
            };
            store.clear(name.as_str());
            return Ok(FactsOutput::Dropped(name, count));
        }
        let name = match name {
            Some(n) => n,
            None => {
                return Ok(fact_sets(store));
            },
        };
        match input {
            None => match store.get(name.as_str()) {
                Some(rows) => Ok(FactsOutput::Rows(crate::value::clone_values(rows))),
                None => Err(FactsError::UnknownFactSet(name)),
            },
            Some(values) => {
                let passed = crate::value::clone_values(&values);
                store.store_facts(name, values);
                Ok(FactsOutput::Rows(passed))
            },
        }
    }
}

/// Storing then retrieving: after `facts` stores input under a name, `facts`
/// with that name and no input gives the stored rows back.
pub proof fn lemma_facts_store_then_retrieve(
    before: Seq<FactSet>,
    after: Seq<FactSet>,
    name: Seq<char>,
    rows: Seq<Val>,
)
    requires
        forall|k: Seq<char>|
            #[trigger] rows_of(after, k) == facts_after(before, Some(name), false, false, Some(rows), k),
    ensures
        facts_reply(after, Some(name), false, false, None) == Ok::<FactsOut, FactsErr>(FactsOut::Rows(rows)),
{
    assert(rows_of(after, name) == Some(rows));
}

/// Dropping then retrieving: after `facts` drops a fact set, retrieving it by
/// name fails as unknown.
pub proof fn lemma_facts_drop_then_retrieve(before: Seq<FactSet>, after: Seq<FactSet>, name: Seq<char>)
    requires
        forall|k: Seq<char>| #[trigger] rows_of(after, k) == facts_after(before, Some(name), true, false, None, k),
    ensures
        facts_reply(after, Some(name), false, false, None) == Err::<FactsOut, FactsErr>(FactsErr::UnknownFactSet(name)),
{
    assert(rows_of(after, name) is None);
}

/// Storing under a name leaves every other fact set as it was.
pub proof fn lemma_facts_store_keeps_others(
    before: Seq<FactSet>,
    after: Seq<FactSet>,
    name: Seq<char>,
    rows: Seq<Val>,
    other: Seq<char>,
)
    requires
        other != name,
        forall|k: Seq<char>|
            #[trigger] rows_of(after, k) == facts_after(before, Some(name), false, false, Some(rows), k),
    ensures
        rows_of(after, other) == rows_of(before, other),
{
    assert(rows_of(after, other) == facts_after(before, Some(name), false, false, Some(rows), other));
}

} // verus!

verus! {

/// The rows a source item names: a table's items, or the stored rows of an
/// `@name` reference.
pub open spec fn source_item_rows(v: Val, store: Seq<FactSet>) -> Seq<Val> {
    match v {
        Val::List(rows) => rows,
        Val::Str(t) => rows_of(store, t.skip(1))->Some_0,
        _ => Seq::empty(),
    }
}

/// Source/pattern pairs whose sources are tables or stored `@name`s and
/// whose patterns are records.
pub open spec fn table_record_pairs(items: Seq<Val>, store: Seq<FactSet>) -> bool {
    &&& items.len() % 2 == 0
    &&& forall|i: int|
        0 <= i < items.len() && i % 2 == 0 ==> match #[trigger] items[i] {
            Val::List(_) => true,
            Val::Str(t) => t.len() > 0 && t[0] == '@' && rows_of(store, t.skip(1)) is Some,
            _ => false,
        }
    &&& forall|i: int| 0 <= i < items.len() && i % 2 == 1 ==> #[trigger] items[i] is Record && pattern_of(items[i]) is Some
}

proof fn lemma_pairs_sources(items: Seq<Val>, store: Seq<FactSet>)
    requires
        table_record_pairs(items, store),
    ensures
        pair_sources(items, store) == Ok::<Seq<PlannedSource>, SolveErr>(
            Seq::new(
                (items.len() / 2) as nat,
                |k: int| (pattern_of(items[2 * k + 1])->Some_0, source_item_rows(items[2 * k], store)),
            ),
        ),
    decreases items.len(),
{
    let want = Seq::new(
        (items.len() / 2) as nat,
        |k: int| (pattern_of(items[2 * k + 1])->Some_0, source_item_rows(items[2 * k], store)),
    );
    if items.len() < 2 {
        assert(items.len() == 0);
        assert(want =~= Seq::<PlannedSource>::empty());
    } else {
        let rest = items.skip(2);
        assert(items[0] == items[0]);
        assert(items[1] is Record);
        assert forall|i: int| 0 <= i < rest.len() && i % 2 == 0 implies match #[trigger] rest[i] {
            Val::List(_) => true,
            Val::Str(t) => t.len() > 0 && t[0] == '@' && rows_of(store, t.skip(1)) is Some,
            _ => false,
        } by {
            assert(rest[i] == items[i + 2]);
        }
        assert forall|i: int| 0 <= i < rest.len() && i % 2 == 1 implies #[trigger] rest[i] is Record && pattern_of(
            rest[i],
        ) is Some by {
            assert(rest[i] == items[i + 2]);
        }
        lemma_pairs_sources(rest, store);
        let tail = Seq::new(
            (rest.len() / 2) as nat,
            |k: int| (pattern_of(rest[2 * k + 1])->Some_0, source_item_rows(rest[2 * k], store)),
        );
        match items[0] {
            Val::List(_) => {},
            Val::Str(t) => {},
            _ => {},
        }
        assert(resolve_spec(items[0], store) == Ok::<Seq<Val>, SolveErr>(source_item_rows(items[0], store)));
        assert(want =~= seq![(pattern_of(items[1])->Some_0, source_item_rows(items[0], store))] + tail) by {
            assert forall|k: int| 0 <= k < want.len() implies want[k] == (seq![(
                pattern_of(items[1])->Some_0,
                source_item_rows(items[0], store),
            )] + tail)[k] by {
                if k > 0 {
                    assert(rest[2 * (k - 1)] == items[2 * k]);
                    assert(rest[2 * (k - 1) + 1] == items[2 * k + 1]);
                }
            }
        }
    }
}

/// Inline source/pattern pairs: a list of at least two items that alternates
/// data sources (tables, or `@name`s of stored fact sets) and record patterns
/// plans a search over exactly those pairs, in order: the pattern each record
/// stands for, over the rows its source names. A record in a pattern position
/// is a pattern.
pub proof fn lemma_inline_record_pairs(items: Seq<Val>, input: Option<Val>, store: Seq<FactSet>)
    requires
        items.len() >= 2,
        table_record_pairs(items, store),
    ensures
        solve_plan(Val::List(items), input, store) == Ok::<PlanV, SolveErr>(
            PlanV::Search(
                Seq::new(
                    (items.len() / 2) as nat,
                    |k: int| (pattern_of(items[2 * k + 1])->Some_0, source_item_rows(items[2 * k], store)),
                ),
            ),
        ),
{
    assert forall|i: int| 0 <= i < items.len() && i % 2 == 0 implies data_source(#[trigger] items[i]) && pattern_like(
        items[i + 1],
    ) by {
        assert(items[i + 1] is Record);
        match items[i] {
            Val::List(_) => {},
            Val::Str(t) => {},
            _ => {},
        }
    }
    assert(inline_pairs(items));
    lemma_pairs_sources(items, store);
}

} // verus!
