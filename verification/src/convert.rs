use vstd::prelude::*;

use crate::term::{fields_view, parts_view, part_view, term_view, Pat, PartV, StringPatternPart, Term};
use crate::text::{alphanumeric, chars_of, is_alphanumeric, push_char, string_from};
use crate::value::{vals_of, cols_of, lemma_vals_of, lemma_cols_of, val_of, Val, Value};

verus! {

broadcast use vstd::string::group_string_axioms;

/// A character that may appear in a variable name.
pub open spec fn is_word_char(c: char) -> bool {
    alphanumeric(c) || c == '_'
}

/// The text a part stands for: a literal's text, or `&` and a variable's name.
pub open spec fn part_text(p: PartV) -> Seq<char> {
    match p {
        PartV::Lit(l) => l,
        PartV::Var(n) => seq!['&'] + n,
    }
}

/// The pattern text that `parts` write out.
pub open spec fn render(parts: Seq<PartV>) -> Seq<char>
    decreases parts.len(),
{
    if parts.len() == 0 {
        Seq::empty()
    } else {
        render(parts.drop_last()) + part_text(parts.last())
    }
}

/// Whether `s` holds `&&` at position `i`.
pub open spec fn double_ampersand_at(s: Seq<char>, i: int) -> bool {
    0 <= i && i + 1 < s.len() && s[i] == '&' && s[i + 1] == '&'
}

/// Whether `s` holds `&&`.
pub open spec fn has_double_ampersand(s: Seq<char>) -> bool {
    exists|i: int| #[trigger] double_ampersand_at(s, i)
}

pub open spec fn lit_text(p: PartV) -> Seq<char> {
    match p {
        PartV::Lit(l) => l,
        PartV::Var(_) => Seq::empty(),
    }
}

/// Every `&` in `l` but the last character is followed by a non-word character.
pub open spec fn amp_ok(l: Seq<char>) -> bool {
    forall|j: int| 0 <= j < l.len() - 1 && #[trigger] l[j] == '&' ==> !is_word_char(l[j + 1])
}

/// The conditions on the part at index `i` of a canonical sequence.
pub open spec fn canonical_at(parts: Seq<PartV>, i: int) -> bool {
    match parts[i] {
        PartV::Lit(l) => {
            &&& l.len() > 0
            &&& amp_ok(l)
            &&& l.last() == '&' ==> i == parts.len() - 1
            &&& i + 1 < parts.len() ==> parts[i + 1] is Var
        },
        PartV::Var(n) => {
            &&& n.len() > 0
            &&& forall|j: int| 0 <= j < n.len() ==> is_word_char(#[trigger] n[j])
            &&& i + 1 < parts.len() && parts[i + 1] is Lit ==> !is_word_char(lit_text(parts[i + 1])[0])
        },
    }
}

/// The parts are in the one form that parsing gives: literals are non-empty and
/// never adjacent; a variable's name is a maximal run of word characters, so
/// whatever follows it does not start with one; an `&` inside a literal is not
/// followed by a word character, and one that ends a literal ends the pattern.
pub open spec fn canonical(parts: Seq<PartV>) -> bool {
    forall|i: int| 0 <= i < parts.len() ==> #[trigger] canonical_at(parts, i)
}

/// The parts of a string pattern: the one canonical sequence that writes out `s`.
pub open spec fn parse_view(s: Seq<char>) -> Seq<PartV> {
    choose|ps: Seq<PartV>| canonical(ps) && render(ps) == s
}

pub open spec fn has_variable(ps: Seq<PartV>) -> bool {
    exists|i: int| 0 <= i < ps.len() && #[trigger] ps[i] is Var
}

/// Whether a list reads as key-value pairs: at least two items, an even
/// number of them, and a string not starting with `@` at every even position.
pub open spec fn kv_list(items: Seq<Val>) -> bool {
    &&& items.len() >= 2
    &&& items.len() % 2 == 0
    &&& forall|i: int|
        0 <= i < items.len() && i % 2 == 0 ==> {
            &&& #[trigger] items[i] is Str
            &&& !(items[i]->Str_0.len() > 0 && items[i]->Str_0[0] == '@')
        }
}

/// Whether a text names a fact set: it starts with `@`.
pub open spec fn is_fact_ref(s: Seq<char>) -> bool {
    s.len() > 0 && s[0] == '@'
}

/// The pattern a string stands for, or `None` when it holds `&&`: a single
/// variable (`&name`) is that variable; variables among literal text make a
/// string pattern; any other string is a literal.
pub open spec fn text_pattern(s: Seq<char>) -> Option<Pat> {
    if has_double_ampersand(s) {
        None
    } else {
        let ps = parse_view(s);
        if ps.len() == 1 && ps[0] is Var {
            Some(Pat::Var(ps[0]->Var_0))
        } else if has_variable(ps) {
            Some(Pat::Str(ps))
        } else {
            Some(Pat::Lit(Val::Str(s)))
        }
    }
}

/// The index of the first `:` in `t`, or `t.len()` when there is none.
pub open spec fn first_colon(t: Seq<char>) -> int
    decreases t.len(),
{
    if t.len() == 0 {
        0
    } else if t[0] == ':' {
        0
    } else {
        1 + first_colon(t.drop_first())
    }
}

/// The role of one item of a list pattern.
pub enum ListItem {
    /// A record: its fields join the pattern.
    Fields,
    /// `&name`: the field `name`, bound to the variable `name`.
    Standalone(Seq<char>),
    /// `key:value` in one string: the field `key` with the pattern of `value`.
    Inline(Seq<char>, Seq<char>),
    /// `key` or `key:`: the field `key`, whose pattern is the next item.
    Key(Seq<char>),
    /// Anything else: the list is no pattern.
    Bad,
}

pub open spec fn list_item(v: Val) -> ListItem {
    match v {
        Val::Record(_) => ListItem::Fields,
        Val::Str(t) => {
            if is_fact_ref(t) {
                ListItem::Bad
            } else {
                match text_pattern(t) {
                    Some(Pat::Var(n)) => ListItem::Standalone(n),
                    _ => {
                        let c = first_colon(t);
                        if 0 < c && c + 1 < t.len() {
                            ListItem::Inline(t.take(c), t.skip(c + 1))
                        } else if 0 < c && c + 1 == t.len() {
                            ListItem::Key(t.take(c))
                        } else {
                            ListItem::Key(t)
                        }
                    },
                }
            }
        },
        _ => ListItem::Bad,
    }
}

/// Whether a list reads as a record pattern: each item a record, a standalone
/// variable, an inline `key:value`, or a key followed by its value; no key
/// names a fact set (`@`), and no key is left without a value.
pub open spec fn list_shape(items: Seq<Val>) -> bool
    decreases items.len(),
{
    if items.len() == 0 {
        true
    } else {
        match list_item(items[0]) {
            ListItem::Bad => false,
            ListItem::Key(_) => items.len() >= 2 && list_shape(items.skip(2)),
            _ => list_shape(items.skip(1)),
        }
    }
}

/// The pattern a value stands for, or `None` when one of its strings holds `&&`.
///
/// A string stands for its [`text_pattern`]. A record is a record pattern of
/// its columns' patterns. A non-empty list that reads as a list pattern (see
/// [`list_shape`]) is a record pattern of the fields its items give, in order.
/// Every other value is a literal.
pub open spec fn pattern_of(v: Val) -> Option<Pat>
    decreases v,
{
    match v {
        Val::Str(s) => text_pattern(s),
        Val::Record(cols) => match fields_pattern(cols) {
            Some(fields) => Some(Pat::Rec(fields)),
            None => None,
        },
        Val::List(items) => {
            if items.len() > 0 && list_shape(items) {
                match list_fields(items) {
                    Some(fields) => Some(Pat::Rec(fields)),
                    None => None,
                }
            } else {
                Some(Pat::Lit(v))
            }
        },
        _ => Some(Pat::Lit(v)),
    }
}

pub open spec fn fields_pattern(cols: Seq<(Seq<char>, Val)>) -> Option<Seq<(Seq<char>, Pat)>>
    decreases cols,
{
    if cols.len() == 0 {
        Some(Seq::empty())
    } else {
        match pattern_of(cols[0].1) {
            None => None,
            Some(p) => match fields_pattern(cols.drop_first()) {
                None => None,
                Some(rest) => Some(seq![(cols[0].0, p)] + rest),
            },
        }
    }
}

/// The fields of a list pattern, in order (see [`list_shape`]).
pub open spec fn list_fields(items: Seq<Val>) -> Option<Seq<(Seq<char>, Pat)>>
    decreases items,
{
    if items.len() == 0 {
        Some(Seq::empty())
    } else {
        match list_item(items[0]) {
            ListItem::Fields => match items[0] {
                Val::Record(cols) => match fields_pattern(cols) {
                    None => None,
                    Some(f) => match list_fields(items.skip(1)) {
                        None => None,
                        Some(rest) => Some(f + rest),
                    },
                },
                _ => None,
            },
            ListItem::Standalone(n) => match list_fields(items.skip(1)) {
                None => None,
                Some(rest) => Some(seq![(n, Pat::Var(n))] + rest),
            },
            ListItem::Inline(k, text) => match text_pattern(text) {
                None => None,
                Some(p) => match list_fields(items.skip(1)) {
                    None => None,
                    Some(rest) => Some(seq![(k, p)] + rest),
                },
            },
            ListItem::Key(k) => {
                if items.len() < 2 {
                    None
                } else {
                    match pattern_of(items[1]) {
                        None => None,
                        Some(p) => match list_fields(items.skip(2)) {
                            None => None,
                            Some(rest) => Some(seq![(k, p)] + rest),
                        },
                    }
                }
            },
            ListItem::Bad => None,
        }
    }
}

/// The message that a pattern holding `&&` is refused with.
pub open spec fn double_ampersand_message() -> Seq<char> {
    "unexpected '&&' in pattern — use a single '&' for variables"@
}

pub proof fn lemma_render_front(ps: Seq<PartV>)
    requires
        ps.len() > 0,
    ensures
        render(ps) == part_text(ps[0]) + render(ps.drop_first()),
    decreases ps.len(),
{
    if ps.len() == 1 {
        assert(ps.drop_first() =~= Seq::<PartV>::empty());
        assert(ps.drop_last() =~= Seq::<PartV>::empty());
        assert(render(ps.drop_last()) == Seq::<char>::empty());
        assert(render(ps.drop_first()) == Seq::<char>::empty());
        assert(ps.last() == ps[0]);
        assert(render(ps) =~= part_text(ps[0]));
    } else {
        lemma_render_front(ps.drop_last());
        assert(ps.drop_last().drop_first() =~= ps.drop_first().drop_last());
        assert(ps.drop_first().last() == ps.last());
        assert(render(ps) =~= part_text(ps[0]) + render(ps.drop_first()));
    }
}

pub proof fn lemma_canonical_tail(ps: Seq<PartV>)
    requires
        canonical(ps),
        ps.len() > 0,
    ensures
        canonical(ps.drop_first()),
{
    let t = ps.drop_first();
    assert forall|k: int| 0 <= k < t.len() implies #[trigger] canonical_at(t, k) by {
        assert(canonical_at(ps, k + 1));
        assert(t[k] == ps[k + 1]);
        if k + 1 < t.len() {
            assert(t[k + 1] == ps[k + 2]);
        }
    }
}

/// The first character of a non-empty canonical rendering is that of its first part.
proof fn lemma_render_first_char(ps: Seq<PartV>)
    requires
        canonical(ps),
        ps.len() > 0,
    ensures
        render(ps).len() > 0,
        render(ps)[0] == part_text(ps[0])[0],
        part_text(ps[0]).len() > 0,
        render(ps).len() >= part_text(ps[0]).len(),
{
    lemma_render_front(ps);
    assert(canonical_at(ps, 0));
}

/// A canonical sequence of parts is determined by the text it writes out.
pub proof fn lemma_canonical_unique(a: Seq<PartV>, b: Seq<PartV>)
    requires
        canonical(a),
        canonical(b),
        render(a) == render(b),
    ensures
        a == b,
    decreases a.len() + b.len(), 1nat,
{
    assert(!is_word_char('&'));
    if a.len() == 0 || b.len() == 0 {
        if a.len() > 0 {
            lemma_render_first_char(a);
        }
        if b.len() > 0 {
            lemma_render_first_char(b);
        }
        assert(a =~= b);
    } else {
        lemma_canonical_unique_step(a, b);
    }
}

proof fn lemma_canonical_unique_step(a: Seq<PartV>, b: Seq<PartV>)
    requires
        canonical(a),
        canonical(b),
        render(a) == render(b),
        a.len() > 0,
        b.len() > 0,
    ensures
        a == b,
    decreases a.len() + b.len(), 0nat,
{
    assert(!is_word_char('&'));
    let s = render(a);
    lemma_render_front(a);
    lemma_render_front(b);
    lemma_canonical_tail(a);
    lemma_canonical_tail(b);
    let ta = a.drop_first();
    let tb = b.drop_first();
    assert(canonical_at(a, 0));
    assert(canonical_at(b, 0));
    let pa = part_text(a[0]);
    let pb = part_text(b[0]);
    if pa.len() == pb.len() {
        assert(s.subrange(0, pa.len() as int) =~= pa);
        assert(s.subrange(0, pb.len() as int) =~= pb);
        assert(render(ta) =~= s.skip(pa.len() as int));
        assert(render(tb) =~= s.skip(pb.len() as int));
        match (a[0], b[0]) {
            (PartV::Var(n), PartV::Var(m)) => {
                assert(n =~= pa.skip(1));
                assert(m =~= pb.skip(1));
            },
            (PartV::Lit(_), PartV::Lit(_)) => {},
            (PartV::Var(n), PartV::Lit(l)) => {
                assert(pa[0] == '&');
                assert(l[0] == '&');
                assert(n[0] == pa[1]);
                assert(l[1] == pa[1]);
            },
            (PartV::Lit(l), PartV::Var(m)) => {
                assert(pb[0] == '&');
                assert(l[0] == '&');
                assert(m[0] == pb[1]);
                assert(l[1] == pb[1]);
            },
        }
        lemma_canonical_unique(ta, tb);
        assert(a[0] == b[0]);
        assert forall|i: int| 0 <= i < a.len() implies a[i] == b[i] by {
            if i > 0 {
                assert(a[i] == ta[i - 1]);
                assert(b[i] == tb[i - 1]);
            }
        }
        assert(a =~= b);
    } else {
        lemma_first_part_len(a, b);
        lemma_first_part_len(b, a);
    }
}

/// Two canonical sequences writing out the same text cannot start with parts
/// of different lengths: the shorter one's next part starts where a word
/// character or a `&`-variable would have to sit inside the longer one.
proof fn lemma_first_part_len(a: Seq<PartV>, b: Seq<PartV>)
    requires
        canonical(a),
        canonical(b),
        render(a) == render(b),
        a.len() > 0,
        b.len() > 0,
    ensures
        part_text(a[0]).len() >= part_text(b[0]).len(),
{
    if part_text(a[0]).len() < part_text(b[0]).len() {
        lemma_first_part_len_short(a, b);
    }
}

proof fn lemma_first_part_len_short(a: Seq<PartV>, b: Seq<PartV>)
    requires
        canonical(a),
        canonical(b),
        render(a) == render(b),
        a.len() > 0,
        b.len() > 0,
        part_text(a[0]).len() < part_text(b[0]).len(),
    ensures
        part_text(a[0]).len() >= part_text(b[0]).len(),
{
    assert(!is_word_char('&'));
    let s = render(a);
    lemma_render_front(a);
    lemma_render_front(b);
    lemma_canonical_tail(a);
    assert(canonical_at(a, 0));
    assert(canonical_at(b, 0));
    let pa = part_text(a[0]);
    let pb = part_text(b[0]);
    let ta = a.drop_first();
    let k = pa.len() as int;
    assert(s[k] == pb[k]);
    if ta.len() == 0 {
        assert(s.len() == k);
    } else {
        lemma_first_part_len_next(a, b);
    }
}

proof fn lemma_first_part_len_next(a: Seq<PartV>, b: Seq<PartV>)
    requires
        canonical(a),
        canonical(b),
        render(a) == render(b),
        a.len() > 1,
        b.len() > 0,
        part_text(a[0]).len() < part_text(b[0]).len(),
    ensures
        part_text(a[0]).len() >= part_text(b[0]).len(),
{
    assert(!is_word_char('&'));
    let s = render(a);
    lemma_render_front(a);
    lemma_render_front(b);
    lemma_canonical_tail(a);
    assert(canonical_at(a, 0));
    assert(canonical_at(b, 0));
    let pa = part_text(a[0]);
    let pb = part_text(b[0]);
    let ta = a.drop_first();
    let k = pa.len() as int;
    assert(s[k] == pb[k]);
    lemma_render_first_char(ta);
    assert(s[k] == render(ta)[0]);
    match (a[0], b[0]) {
        (PartV::Var(n), PartV::Var(m)) => {
            // the shorter name stops where the longer one goes on with a word character
            assert(pb[k] == m[k - 1]);
            assert(is_word_char(m[k - 1]));
            assert(canonical_at(a, 0));
            if ta[0] is Lit {
                assert(a[1] == ta[0]);
                assert(!is_word_char(lit_text(ta[0])[0]));
            }
        },
        (PartV::Var(n), PartV::Lit(l)) => {
            assert(pa[0] == '&');
            assert(s[0] == pa[0]);
            assert(s[0] == pb[0]);
            assert(l[0] == '&');
            assert(pa[1] == n[0]);
            assert(is_word_char(n[0]));
            if l.len() >= 2 {
                assert(l[1] == s[1]);
            } else {
                assert(l.last() == '&');
            }
        },
        (PartV::Lit(l), PartV::Var(m)) => {
            assert(pb[0] == '&');
            assert(s[0] == pa[0]);
            assert(s[0] == pb[0]);
            assert(l[0] == '&');
            if l.len() >= 2 {
                assert(l[1] == s[1]);
                assert(m[0] == s[1]);
            } else {
                assert(l.last() == '&');
                assert(a.len() == 1);
            }
        },
        (PartV::Lit(l1), PartV::Lit(l2)) => {
            assert(a[1] is Var);
            assert(a[1] == ta[0]);
            let n = ta[0]->Var_0;
            assert(render(ta)[0] == '&');
            assert(l2[k] == '&');
            lemma_render_front(ta);
            assert(canonical_at(ta, 0));
            assert(render(ta).len() >= 2);
            assert(s[k + 1] == render(ta)[1]);
            assert(render(ta)[1] == n[0]);
            assert(is_word_char(n[0]));
            if k + 1 < l2.len() {
                assert(l2[k + 1] == s[k + 1]);
            } else {
                assert(l2.last() == '&');
                assert(b.len() == 1);
                assert(render(b.drop_first()) =~= Seq::<char>::empty());
            }
        },
    }
}

pub proof fn lemma_canonical_push(ps: Seq<PartV>, x: PartV)
    requires
        canonical(ps),
        canonical_at(ps.push(x), ps.len() as int),
        ps.len() > 0 ==> canonical_at(ps.push(x), ps.len() - 1),
    ensures
        canonical(ps.push(x)),
{
    let qs = ps.push(x);
    assert forall|k: int| 0 <= k < qs.len() implies #[trigger] canonical_at(qs, k) by {
        if k < ps.len() - 1 {
            assert(canonical_at(ps, k));
            assert(qs[k] == ps[k]);
            assert(qs[k + 1] == ps[k + 1]);
        }
    }
}

pub proof fn lemma_canonical_after_var(ps: Seq<PartV>, x: PartV)
    requires
        canonical(ps),
        ps.len() > 0,
        ps.last() is Var,
        x is Lit ==> !is_word_char(lit_text(x)[0]),
    ensures
        canonical_at(ps.push(x), ps.len() - 1),
{
    assert(canonical_at(ps, ps.len() - 1));
    assert(ps.push(x)[ps.len() - 1] == ps[ps.len() - 1]);
    assert(ps.push(x)[ps.len() as int] == x);
}

proof fn lemma_parts_view_push(ps: Seq<StringPatternPart>, x: StringPatternPart)
    ensures
        parts_view(ps.push(x)) == parts_view(ps).push(part_view(x)),
{
    assert(parts_view(ps.push(x)) =~= parts_view(ps).push(part_view(x)));
}

proof fn lemma_render_push(ps: Seq<PartV>, x: PartV)
    ensures
        render(ps.push(x)) == render(ps) + part_text(x),
{
    assert(ps.push(x).drop_last() =~= ps);
}

fn is_word(c: char) -> (r: bool)
    ensures
        r == is_word_char(c),
{
    is_alphanumeric(c) || c == '_'
}

/// Parses a string pattern such as `&stem.rs` into parts: an `&` followed by
/// word characters (alphanumeric or `_`) is a variable, everything else is
/// literal text, and an `&` followed by no word character is literal too.
///
/// A pattern holding `&&` is refused (a single `&` marks a variable).
pub fn parse_string_pattern(s: &str) -> (r: Result<Vec<StringPatternPart>, String>)
    ensures
        r is Err <==> has_double_ampersand(s@),
        r matches Err(m) ==> m@ == double_ampersand_message(),
        r matches Ok(parts) ==> render(parts_view(parts@)) == s@ && canonical(parts_view(parts@))
            && parts_view(parts@) == parse_view(s@),
{
    let cs = chars_of(s);
    let mut parts: Vec<StringPatternPart> = Vec::new();
    let mut literal = String::new();
    let mut i: usize = 0;
    assert(parts_view(parts@) =~= Seq::<PartV>::empty());
    assert(render(parts_view(parts@)) + literal@ =~= cs@.take(0));
    while i < cs.len()
        invariant
            cs@ == s@,
            i <= cs.len(),
            render(parts_view(parts@)) + literal@ == cs@.take(i as int),
            canonical(parts_view(parts@)),
            parts@.len() > 0 ==> parts_view(parts@).last() is Var,
            literal@.len() > 0 && parts@.len() > 0 ==> !is_word_char(literal@[0]),
            amp_ok(literal@),
            literal@.len() > 0 && literal@.last() == '&' && i < cs.len() ==> !is_word_char(cs@[i as int])
                && cs@[i as int] != '&',
            parts@.len() > 0 && literal@.len() == 0 && i < cs.len() ==> !is_word_char(cs@[i as int]),
            forall|p: int| 0 <= p < i ==> !double_ampersand_at(cs@, p),
        decreases cs.len() - i,
    {
        let c = cs[i];
        if c == '&' {
            if i + 1 < cs.len() && cs[i + 1] == '&' {
                assert(double_ampersand_at(s@, i as int));
                return Err("unexpected '&&' in pattern — use a single '&' for variables".to_string());
            }
            let mut j: usize = i + 1;
            while j < cs.len() && is_word(cs[j])
                invariant
                    i + 1 <= j <= cs.len(),
                    forall|q: int| i + 1 <= q < j ==> is_word_char(#[trigger] cs@[q]),
                decreases cs.len() - j,
            {
                j = j + 1;
            }
            assert(j < cs.len() ==> !is_word_char(cs@[j as int]));
            if j == i + 1 {
                let ghost old_lit = literal@;
                push_char(&mut literal, '&');
                proof {
                    assert(cs@.take(i + 1) =~= cs@.take(i as int).push(cs@[i as int]));
                    assert(render(parts_view(parts@)) + literal@ =~= (render(parts_view(parts@))
                        + old_lit).push('&'));
                    assert(forall|p: int| 0 <= p < i + 1 ==> !double_ampersand_at(cs@, p));
                    assert forall|q: int|
                        0 <= q < literal@.len() - 1 && #[trigger] literal@[q] == '&' implies !is_word_char(
                        literal@[q + 1],
                    ) by {
                        if q < old_lit.len() - 1 {
                            assert(old_lit[q] == '&');
                        }
                    }
                }
                i = i + 1;
            } else {
                let name = string_from(&cs, i + 1, j);
                if !literal.as_str().is_empty() {
                    let ghost lit_view = literal@;
                    let ghost before = parts@;
                    let mut lit = String::new();
                    std::mem::swap(&mut lit, &mut literal);
                    proof {
                        lemma_parts_view_push(before, StringPatternPart::Literal(lit));
                        lemma_render_push(parts_view(before), PartV::Lit(lit_view));
                    }
                    parts.push(StringPatternPart::Literal(lit));
                    proof {
                        assert(lit_view.last() != '&');
                        if before.len() > 0 {
                            lemma_canonical_after_var(parts_view(before), PartV::Lit(lit_view));
                        }
                        lemma_canonical_push(parts_view(before), PartV::Lit(lit_view));
                        assert(literal@ =~= Seq::<char>::empty());
                    }
                }
                let ghost mid = parts@;
                let ghost name_view = name@;
                proof {
                    lemma_parts_view_push(mid, StringPatternPart::Variable(name));
                    lemma_render_push(parts_view(mid), PartV::Var(name_view));
                    assert forall|q: int| 0 <= q < name_view.len() implies is_word_char(
                        #[trigger] name_view[q],
                    ) by {
                        assert(name_view[q] == cs@[i + 1 + q]);
                    }
                    assert(canonical_at(parts_view(mid).push(PartV::Var(name_view)), mid.len() as int));
                    if mid.len() > 0 {
                        if parts_view(mid).last() is Var {
                            lemma_canonical_after_var(parts_view(mid), PartV::Var(name_view));
                        } else {
                            assert(canonical_at(parts_view(mid), mid.len() - 1));
                            assert(parts_view(mid).push(PartV::Var(name_view))[mid.len() - 1]
                                == parts_view(mid)[mid.len() - 1]);
                        }
                    }
                    lemma_canonical_push(parts_view(mid), PartV::Var(name_view));
                }
                parts.push(StringPatternPart::Variable(name));
                proof {
                    assert(cs@.take(j as int) =~= cs@.take(i as int) + (seq!['&'] + name_view));
                    assert forall|p: int| 0 <= p < j implies !double_ampersand_at(cs@, p) by {
                        if p > i {
                            assert(is_word_char(cs@[p]));
                        }
                    }
                }
                i = j;
            }
        } else {
            let ghost old_lit = literal@;
            push_char(&mut literal, c);
            proof {
                assert(cs@.take(i + 1) =~= cs@.take(i as int).push(cs@[i as int]));
                assert(render(parts_view(parts@)) + literal@ =~= (render(parts_view(parts@))
                    + old_lit).push(c));
                assert forall|q: int|
                    0 <= q < literal@.len() - 1 && #[trigger] literal@[q] == '&' implies !is_word_char(
                    literal@[q + 1],
                ) by {
                    if q < old_lit.len() - 1 {
                        assert(old_lit[q] == '&');
                    }
                }
            }
            i = i + 1;
        }
    }
    if !literal.as_str().is_empty() {
        let ghost lit_view = literal@;
        let ghost before = parts@;
        proof {
            lemma_parts_view_push(before, StringPatternPart::Literal(literal));
            lemma_render_push(parts_view(before), PartV::Lit(lit_view));
        }
        parts.push(StringPatternPart::Literal(literal));
        proof {
            if before.len() > 0 {
                lemma_canonical_after_var(parts_view(before), PartV::Lit(lit_view));
            }
            lemma_canonical_push(parts_view(before), PartV::Lit(lit_view));
        }
    } else {
        assert(render(parts_view(parts@)) =~= cs@.take(i as int));
    }
    assert(cs@.take(cs@.len() as int) =~= cs@);
    proof {
        let w = parse_view(s@);
        assert(canonical(w) && render(w) == s@);
        lemma_canonical_unique(parts_view(parts@), w);
    }
    Ok(parts)
}

pub(crate) fn starts_with_at(s: &String) -> (r: bool)
    ensures
        r == (s@.len() > 0 && s@[0] == '@'),
{
    let cs = chars_of(s.as_str());
    cs.len() > 0 && cs[0] == '@'
}

/// Whether a list reads as key-value pairs (see [`kv_list`]): `@`-prefixed
/// strings name fact sets, so they cannot be keys.
pub fn is_kv_list(vals: &[Value]) -> (r: bool)
    ensures
        r == kv_list(vals_of(vals@)),
{
    proof {
        lemma_vals_of(vals@);
    }
    let ghost vs = vals_of(vals@);
    if vals.len() < 2 || vals.len() % 2 != 0 {
        return false;
    }
    let mut i: usize = 0;
    while i < vals.len()
        invariant
            vs == vals_of(vals@),
            vs.len() == vals@.len(),
            forall|k: int| 0 <= k < vals@.len() ==> #[trigger] vs[k] == val_of(vals@[k]),
            vals.len() % 2 == 0,
            i % 2 == 0,
            i <= vals.len(),
            forall|k: int|
                0 <= k < i && k % 2 == 0 ==> {
                    &&& #[trigger] vs[k] is Str
                    &&& !(vs[k]->Str_0.len() > 0 && vs[k]->Str_0[0] == '@')
                },
        decreases vals.len() - i,
    {
        match &vals[i] {
            Value::Str(key) => {
                if starts_with_at(key) {
                    assert(vs[i as int] == val_of(vals@[i as int]));
                    return false;
                }
            },
            _ => {
                assert(vs[i as int] == val_of(vals@[i as int]));
                return false;
            },
        }
        i = i + 2;
    }
    true
}

/// The pattern a string stands for (see [`text_pattern`]).
fn text_to_pattern(val: &String) -> (r: Result<Term, String>)
    ensures
        r is Ok <==> text_pattern(val@) is Some,
        r matches Ok(t) ==> text_pattern(val@) == Some(term_view(t)),
        r matches Err(m) ==> m@ == double_ampersand_message(),
{
    let parts = parse_string_pattern(val.as_str())?;
    let ghost ps = parts_view(parts@);
    assert(ps.len() == parts@.len());
    if parts.len() == 1 {
        if let StringPatternPart::Variable(name) = &parts[0] {
            assert(ps[0] == part_view(parts@[0]));
            return Ok(Term::Variable(name.clone()));
        }
    }
    let mut i: usize = 0;
    let mut any_var = false;
    while i < parts.len()
        invariant
            ps == parts_view(parts@),
            ps.len() == parts@.len(),
            i <= parts.len(),
            any_var == exists|k: int| 0 <= k < i && #[trigger] ps[k] is Var,
        decreases parts.len() - i,
    {
        assert(ps[i as int] == part_view(parts@[i as int]));
        if let StringPatternPart::Variable(_) = &parts[i] {
            any_var = true;
        }
        i = i + 1;
    }
    if any_var {
        assert(ps.len() == 1 ==> ps[0] is Lit);
        Ok(Term::StringPattern(parts))
    } else {
        Ok(Term::Literal(Value::Str(val.clone())))
    }
}

/// The index of the first `:` in `cs` (see [`first_colon`]).
fn first_colon_index(cs: &Vec<char>) -> (r: usize)
    ensures
        r as int == first_colon(cs@),
        r <= cs.len(),
{
    let mut i: usize = 0;
    assert(cs@.skip(0) =~= cs@);
    while i < cs.len() && cs[i] != ':'
        invariant
            i <= cs.len(),
            first_colon(cs@) == i + first_colon(cs@.skip(i as int)),
        decreases cs.len() - i,
    {
        assert(cs@.skip(i as int)[0] == cs@[i as int]);
        assert(cs@.skip(i as int).drop_first() =~= cs@.skip(i + 1));
        i = i + 1;
    }
    if i < cs.len() {
        assert(cs@.skip(i as int)[0] == cs@[i as int]);
    } else {
        assert(cs@.skip(i as int).len() == 0);
    }
    i
}

/// The role of an item of a list pattern, as computed (see [`ListItem`]).
enum ItemKind {
    Fields,
    Standalone(String),
    Inline(String, String),
    Key(String),
    Bad,
}

spec fn kind_view(k: ItemKind) -> ListItem {
    match k {
        ItemKind::Fields => ListItem::Fields,
        ItemKind::Standalone(n) => ListItem::Standalone(n@),
        ItemKind::Inline(k, t) => ListItem::Inline(k@, t@),
        ItemKind::Key(k) => ListItem::Key(k@),
        ItemKind::Bad => ListItem::Bad,
    }
}

/// The role of one item of a list pattern (see [`list_item`]).
fn classify(v: &Value) -> (r: ItemKind)
    ensures
        kind_view(r) == list_item(v@),
{
    match v {
        Value::Record(_) => ItemKind::Fields,
        Value::Str(t) => {
            if starts_with_at(t) {
                return ItemKind::Bad;
            }
            match text_to_pattern(t) {
                Ok(Term::Variable(n)) => {
                    return ItemKind::Standalone(n);
                },
                _ => {},
            }
            let cs = chars_of(t.as_str());
            let c = first_colon_index(&cs);
            if 0 < c && c < cs.len() && c + 1 < cs.len() {
                let key = string_from(&cs, 0, c);
                let rest = string_from(&cs, c + 1, cs.len());
                assert(key@ =~= t@.take(c as int));
                assert(rest@ =~= t@.skip(c + 1));
                ItemKind::Inline(key, rest)
            } else if 0 < c && c < cs.len() && c + 1 == cs.len() {
                let key = string_from(&cs, 0, c);
                assert(key@ =~= t@.take(c as int));
                ItemKind::Key(key)
            } else {
                ItemKind::Key(t.clone())
            }
        },
        _ => ItemKind::Bad,
    }
}

/// Whether a non-empty list reads as a list pattern (see [`list_shape`]).
fn is_pattern_list(vals: &Vec<Value>) -> (r: bool)
    ensures
        r == (vals@.len() > 0 && list_shape(vals_of(vals@))),
{
    proof {
        lemma_vals_of(vals@);
    }
    let ghost vs = vals_of(vals@);
    if vals.len() == 0 {
        return false;
    }
    let mut i: usize = 0;
    assert(vs.skip(0) =~= vs);
    while i < vals.len()
        invariant
            vs == vals_of(vals@),
            vs.len() == vals@.len(),
            forall|k: int| 0 <= k < vals@.len() ==> #[trigger] vs[k] == val_of(vals@[k]),
            i <= vals.len(),
            list_shape(vs) == list_shape(vs.skip(i as int)),
        decreases vals.len() - i,
    {
        let ghost rest = vs.skip(i as int);
        assert(rest[0] == vs[i as int]);
        match classify(&vals[i]) {
            ItemKind::Bad => {
                return false;
            },
            ItemKind::Key(_) => {
                if i + 1 >= vals.len() {
                    return false;
                }
                assert(rest.skip(2) =~= vs.skip(i + 2));
                i = i + 2;
            },
            _ => {
                assert(rest.skip(1) =~= vs.skip(i + 1));
                i = i + 1;
            },
        }
    }
    assert(vs.skip(i as int).len() == 0);
    true
}

proof fn lemma_fields_view_append(a: Seq<(String, Term)>, b: Seq<(String, Term)>)
    ensures
        fields_view(a + b) == fields_view(a) + fields_view(b),
{
    crate::term::lemma_fields_view(a);
    crate::term::lemma_fields_view(b);
    crate::term::lemma_fields_view(a + b);
    assert(fields_view(a + b) =~= fields_view(a) + fields_view(b));
}

/// Turns a value into a pattern term (see [`pattern_of`]): `"&name"` becomes a
/// variable, `"&stem.rs"` a string pattern, a record or a list pattern a
/// record pattern of the converted values, and anything else a literal.
///
/// Fails, with the message of [`parse_string_pattern`], when a string holds `&&`.
pub fn value_to_pattern(value: &Value) -> (r: Result<Term, String>)
    ensures
        r is Ok <==> pattern_of(value@) is Some,
        r matches Ok(t) ==> pattern_of(value@) == Some(term_view(t)),
        r matches Err(m) ==> m@ == double_ampersand_message(),
    decreases value,
{
    match value {
        Value::Str(val) => text_to_pattern(val),
        Value::Record(cols) => {
            proof {
                lemma_cols_of(cols@);
            }
            let ghost cs = cols_of(cols@);
            let mut out: Vec<(String, Term)> = Vec::new();
            let mut i: usize = 0;
            assert(cs.skip(0) =~= cs);
            assert(fields_view(out@) =~= Seq::<(Seq<char>, Pat)>::empty());
            while i < cols.len()
                invariant
                    *value == Value::Record(*cols),
                    cs == cols_of(cols@),
                    cs.len() == cols@.len(),
                    forall|k: int| 0 <= k < cols@.len() ==> #[trigger] cs[k] == (cols@[k].0@, val_of(cols@[k].1)),
                    i <= cols.len(),
                    fields_pattern(cs) == match fields_pattern(cs.skip(i as int)) {
                        None => None,
                        Some(rest) => Some(fields_view(out@) + rest),
                    },
                decreases cols.len() - i,
            {
                proof {
                    assert(decreases_to!(*value => (*value)->Record_0));
                    assert(decreases_to!(*cols => cols@));
                    assert(decreases_to!(cols@ => cols@[i as int]));
                    assert(decreases_to!(cols@[i as int] => cols@[i as int].1));
                    assert(cs.skip(i as int)[0] == cs[i as int]);
                    assert(cs.skip(i as int).drop_first() =~= cs.skip(i + 1));
                }
                let p = value_to_pattern(&cols[i].1)?;
                let ghost before = out@;
                let name = cols[i].0.clone();
                let ghost entry = (name@, term_view(p));
                out.push((name, p));
                proof {
                    assert(out@.drop_last() =~= before);
                    assert(fields_view(out@) == fields_view(before).push(entry));
                    match fields_pattern(cs.skip(i + 1)) {
                        None => {},
                        Some(rest) => {
                            assert(fields_view(before) + (seq![entry] + rest) =~= fields_view(out@) + rest);
                        },
                    }
                }
                i = i + 1;
            }
            assert(cs.skip(i as int) =~= Seq::<(Seq<char>, Val)>::empty());
            assert(fields_view(out@) + Seq::<(Seq<char>, Pat)>::empty() =~= fields_view(out@));
            Ok(Term::Record(out))
        },
        Value::List(vals) => {
            if !is_pattern_list(vals) {
                return Ok(Term::Literal(value.clone()));
            }
            proof {
                lemma_vals_of(vals@);
            }
            let ghost vs = vals_of(vals@);
            let mut out: Vec<(String, Term)> = Vec::new();
            let mut i: usize = 0;
            assert(vs.skip(0) =~= vs);
            assert(fields_view(out@) =~= Seq::<(Seq<char>, Pat)>::empty());
            while i < vals.len()
                invariant
                    *value == Value::List(*vals),
                    vs == vals_of(vals@),
                    vs.len() == vals@.len(),
                    forall|k: int| 0 <= k < vals@.len() ==> #[trigger] vs[k] == val_of(vals@[k]),
                    i <= vals.len(),
                    vs.len() > 0,
                    list_shape(vs),
                    list_shape(vs.skip(i as int)),
                    list_fields(vs) == match list_fields(vs.skip(i as int)) {
                        None => None,
                        Some(rest) => Some(fields_view(out@) + rest),
                    },
                decreases vals.len() - i,
            {
                let ghost items = vs.skip(i as int);
                let ghost before = out@;
                proof {
                    assert(decreases_to!(*value => (*value)->List_0));
                    assert(decreases_to!(*vals => vals@));
                    assert(decreases_to!(vals@ => vals@[i as int]));
                    assert(items[0] == vs[i as int]);
                    assert(items.skip(1) =~= vs.skip(i + 1));
                }
                match classify(&vals[i]) {
                    ItemKind::Fields => {
                        let t = match value_to_pattern(&vals[i]) {
                            Ok(t) => t,
                            Err(e) => {
                                assert(list_fields(items) is None);
                                return Err(e);
                            },
                        };
                        match t {
                            Term::Record(mut fs) => {
                                let ghost added = fs@;
                                out.append(&mut fs);
                                proof {
                                    lemma_fields_view_append(before, added);
                                    match list_fields(vs.skip(i + 1)) {
                                        None => {},
                                        Some(rest) => {
                                            assert(fields_view(before) + (fields_view(added) + rest) =~= fields_view(
                                                out@,
                                            ) + rest);
                                        },
                                    }
                                }
                            },
                            _ => {
                                proof {
                                    assert(false);
                                }
                                return Ok(Term::Literal(value.clone()));
                            },
                        }
                        i = i + 1;
                    },
                    ItemKind::Standalone(n) => {
                        let key = n.clone();
                        let t = Term::Variable(n);
                        let ghost entry = (key@, term_view(t));
                        assert(term_view(t) == Pat::Var(key@));
                        out.push((key, t));
                        proof {
                            assert(out@.drop_last() =~= before);
                            assert(fields_view(out@) == fields_view(before).push(entry));
                            match list_fields(vs.skip(i + 1)) {
                                None => {},
                                Some(rest) => {
                                    assert(fields_view(before) + (seq![entry] + rest) =~= fields_view(out@) + rest);
                                },
                            }
                        }
                        i = i + 1;
                    },
                    ItemKind::Inline(key, text) => {
                        let p = match text_to_pattern(&text) {
                            Ok(p) => p,
                            Err(e) => {
                                assert(list_fields(items) is None);
                                return Err(e);
                            },
                        };
                        let ghost entry = (key@, term_view(p));
                        out.push((key, p));
                        proof {
                            assert(out@.drop_last() =~= before);
                            assert(fields_view(out@) == fields_view(before).push(entry));
                            match list_fields(vs.skip(i + 1)) {
                                None => {},
                                Some(rest) => {
                                    assert(fields_view(before) + (seq![entry] + rest) =~= fields_view(out@) + rest);
                                },
                            }
                        }
                        i = i + 1;
                    },
                    ItemKind::Key(key) => {
                        proof {
                            assert(decreases_to!(vals@ => vals@[i + 1]));
                            assert(items[1] == vs[i + 1]);
                            assert(items.skip(2) =~= vs.skip(i + 2));
                        }
                        let p = match value_to_pattern(&vals[i + 1]) {
                            Ok(p) => p,
                            Err(e) => {
                                assert(list_fields(items) is None);
                                return Err(e);
                            },
                        };
                        let ghost entry = (key@, term_view(p));
                        out.push((key, p));
                        proof {
                            assert(out@.drop_last() =~= before);
                            assert(fields_view(out@) == fields_view(before).push(entry));
                            match list_fields(vs.skip(i + 2)) {
                                None => {},
                                Some(rest) => {
                                    assert(fields_view(before) + (seq![entry] + rest) =~= fields_view(out@) + rest);
                                },
                            }
                        }
                        i = i + 2;
                    },
                    ItemKind::Bad => {
                        proof {
                            assert(false);
                        }
                        return Ok(Term::Literal(value.clone()));
                    },
                }
            }
            assert(vs.skip(i as int) =~= Seq::<Val>::empty());
            assert(fields_view(out@) + Seq::<(Seq<char>, Pat)>::empty() =~= fields_view(out@));
            Ok(Term::Record(out))
        },
        _ => Ok(Term::Literal(value.clone())),
    }
}

} // verus!

verus! {

/// Every alphanumeric character (as `char::is_alphanumeric` answers) and `_`
/// continues a variable name: `&` followed by a non-empty run of such
/// characters is exactly that one variable, and as a pattern it is that
/// variable.
pub proof fn lemma_variable_name_chars(name: Seq<char>)
    requires
        name.len() > 0,
        forall|i: int| 0 <= i < name.len() ==> alphanumeric(#[trigger] name[i]) || name[i] == '_',
    ensures
        parse_view(seq!['&'] + name) == seq![PartV::Var(name)],
        text_pattern(seq!['&'] + name) == Some(Pat::Var(name)),
{
    let s = seq!['&'] + name;
    let ps = seq![PartV::Var(name)];
    assert(canonical_at(ps, 0));
    assert(canonical(ps));
    lemma_render_push(Seq::<PartV>::empty(), PartV::Var(name));
    assert(Seq::<PartV>::empty().push(PartV::Var(name)) =~= ps);
    assert(render(Seq::<PartV>::empty()) == Seq::<char>::empty());
    assert(render(ps) =~= s);
    let w = parse_view(s);
    assert(canonical(w) && render(w) == s);
    lemma_canonical_unique(w, ps);
    assert(!has_double_ampersand(s)) by {
        assert forall|i: int| !#[trigger] double_ampersand_at(s, i) by {
            if 0 <= i && i + 1 < s.len() && s[i] == '&' {
                assert(s[i + 1] == name[i]);
                assert(alphanumeric(name[i]) || name[i] == '_');
                if i > 0 {
                    assert(s[i] == name[i - 1]);
                    assert(alphanumeric(name[i - 1]) || name[i - 1] == '_');
                }
            }
        }
    }
}

proof fn lemma_first_colon_at(k: Seq<char>, t: Seq<char>)
    requires
        forall|i: int| 0 <= i < k.len() ==> k[i] != ':',
    ensures
        first_colon(k + seq![':'] + t) == k.len(),
    decreases k.len(),
{
    let s = k + seq![':'] + t;
    if k.len() == 0 {
        assert(s[0] == ':');
    } else {
        assert(s[0] == k[0]);
        assert(s.drop_first() =~= k.drop_first() + seq![':'] + t);
        lemma_first_colon_at(k.drop_first(), t);
    }
}

/// A text holding `:` past its first character is no single variable.
proof fn lemma_colon_not_variable(s: Seq<char>, c: int)
    requires
        0 < c < s.len(),
        s[c] == ':',
    ensures
        !(text_pattern(s) matches Some(Pat::Var(_))),
{
    if !has_double_ampersand(s) {
        let witness = lemma_parse_exists(s);
        let w = parse_view(s);
        assert(canonical(w) && render(w) == s);
        if w.len() == 1 && w[0] is Var {
            let n = w[0]->Var_0;
            assert(canonical_at(w, 0));
            lemma_render_push(Seq::<PartV>::empty(), w[0]);
            assert(Seq::<PartV>::empty().push(w[0]) =~= w);
            assert(render(Seq::<PartV>::empty()) == Seq::<char>::empty());
            assert(s =~= seq!['&'] + n);
            assert(s[c] == n[c - 1]);
            assert(is_word_char(n[c - 1]));
        }
    }
}

/// An inline `key:text` list item gives the field `key` with the pattern that
/// `text` gives on its own: `[key:text]` converts as `{key: text}` does.
pub proof fn lemma_inline_item(k: Seq<char>, t: Seq<char>)
    requires
        k.len() > 0,
        t.len() > 0,
        forall|i: int| 0 <= i < k.len() ==> k[i] != ':',
        k[0] != '@',
    ensures
        pattern_of(Val::List(seq![Val::Str(k + seq![':'] + t)])) == pattern_of(Val::Record(seq![(k, Val::Str(t))])),
{
    let s = k + seq![':'] + t;
    let items = seq![Val::Str(s)];
    lemma_first_colon_at(k, t);
    lemma_colon_not_variable(s, k.len() as int);
    assert(s[0] == k[0]);
    assert(s.take(k.len() as int) =~= k);
    assert(s.skip(k.len() as int + 1) =~= t);
    assert(list_item(items[0]) == ListItem::Inline(k, t));
    assert(items.skip(1) =~= Seq::<Val>::empty());
    assert(list_shape(Seq::<Val>::empty()));
    assert(list_fields(Seq::<Val>::empty()) == Some(Seq::<(Seq<char>, Pat)>::empty()));
    assert(list_shape(items));
    let cols = seq![(k, Val::Str(t))];
    assert(cols.drop_first() =~= Seq::<(Seq<char>, Val)>::empty());
    assert(fields_pattern(Seq::<(Seq<char>, Val)>::empty()) == Some(Seq::<(Seq<char>, Pat)>::empty()));
    assert(pattern_of(cols[0].1) == text_pattern(t));
    match text_pattern(t) {
        Some(p) => {
            assert(list_fields(items) == Some(seq![(k, p)] + Seq::<(Seq<char>, Pat)>::empty()));
            assert(fields_pattern(cols) == Some(seq![(k, p)] + Seq::<(Seq<char>, Pat)>::empty()));
        },
        None => {},
    }
}

} // verus!

verus! {

proof fn lemma_canonical_drop_last(ps: Seq<PartV>)
    requires
        canonical(ps),
        ps.len() > 0,
    ensures
        canonical(ps.drop_last()),
{
    let qs = ps.drop_last();
    assert forall|i: int| 0 <= i < qs.len() implies #[trigger] canonical_at(qs, i) by {
        assert(canonical_at(ps, i));
        assert(qs[i] == ps[i]);
        if i + 1 < qs.len() {
            assert(qs[i + 1] == ps[i + 1]);
        }
    }
}

proof fn lemma_no_double_prefix(s: Seq<char>)
    requires
        !has_double_ampersand(s),
        s.len() > 0,
    ensures
        !has_double_ampersand(s.drop_last()),
{
    let s0 = s.drop_last();
    assert forall|i: int| !#[trigger] double_ampersand_at(s0, i) by {
        if double_ampersand_at(s0, i) {
            assert(double_ampersand_at(s, i));
        }
    }
}

/// Every text without `&&` has a canonical parse: parts in the one form that
/// parsing gives, which write the text out again.
pub proof fn lemma_parse_exists(s: Seq<char>) -> (ps: Seq<PartV>)
    requires
        !has_double_ampersand(s),
    ensures
        canonical(ps),
        render(ps) == s,
    decreases s.len(),
{
    if s.len() == 0 {
        let ps = Seq::<PartV>::empty();
        assert(render(ps) =~= s);
        ps
    } else {
        let s0 = s.drop_last();
        let c = s.last();
        lemma_no_double_prefix(s);
        let p0 = lemma_parse_exists(s0);
        assert(s =~= s0.push(c));
        if p0.len() == 0 {
            let x = PartV::Lit(seq![c]);
            let ps = p0.push(x);
            assert(canonical_at(ps, 0));
            lemma_canonical_push(p0, x);
            lemma_render_push(p0, x);
            assert(render(ps) =~= s);
            ps
        } else {
            let base = p0.drop_last();
            let last = p0.last();
            lemma_canonical_drop_last(p0);
            assert(base.push(last) =~= p0);
            lemma_render_push(base, last);
            assert(canonical_at(p0, p0.len() - 1));
            if base.len() > 0 {
                assert(canonical_at(p0, base.len() - 1));
                assert(p0[base.len() - 1] == base.last());
            }
            match last {
                PartV::Var(n) => {
                    if is_word_char(c) {
                        let x = PartV::Var(n.push(c));
                        let ps = base.push(x);
                        assert(canonical_at(ps, base.len() as int)) by {
                            assert forall|j: int| 0 <= j < n.push(c).len() implies is_word_char(#[trigger] n.push(c)[j]) by {
                                if j < n.len() {
                                    assert(n.push(c)[j] == n[j]);
                                }
                            }
                        }
                        if base.len() > 0 {
                            assert(ps[base.len() - 1] == base.last());
                            assert(canonical_at(ps, base.len() - 1));
                        }
                        lemma_canonical_push(base, x);
                        lemma_render_push(base, x);
                        assert(render(ps) =~= s);
                        ps
                    } else {
                        let x = PartV::Lit(seq![c]);
                        let ps = p0.push(x);
                        assert(canonical_at(ps, p0.len() as int));
                        lemma_canonical_after_var(p0, x);
                        lemma_canonical_push(p0, x);
                        lemma_render_push(p0, x);
                        assert(render(ps) =~= s);
                        ps
                    }
                },
                PartV::Lit(l) => {
                    assert(l.len() > 0);
                    assert(s0 =~= render(base) + l);
                    if base.len() > 0 {
                        assert(base.last() is Var);
                    }
                    if l.last() == '&' && is_word_char(c) {
                        let v = PartV::Var(seq![c]);
                        if l.len() == 1 {
                            let ps = base.push(v);
                            assert(canonical_at(ps, base.len() as int));
                            if base.len() > 0 {
                                assert(ps[base.len() - 1] == base.last());
                                assert(canonical_at(ps, base.len() - 1));
                            }
                            lemma_canonical_push(base, v);
                            lemma_render_push(base, v);
                            assert(l =~= seq!['&']);
                            assert(render(ps) =~= s);
                            ps
                        } else {
                            let l1 = l.drop_last();
                            let y = PartV::Lit(l1);
                            let mid = base.push(y);
                            assert(s0[s0.len() - 2] == l[l.len() - 2]);
                            assert(s0[s0.len() - 1] == l[l.len() - 1]);
                            if l1.last() == '&' {
                                assert(double_ampersand_at(s0, s0.len() - 2));
                            }
                            assert(amp_ok(l1)) by {
                                assert forall|j: int| 0 <= j < l1.len() - 1 && #[trigger] l1[j] == '&' implies !is_word_char(
                                    l1[j + 1],
                                ) by {
                                    assert(l[j] == '&');
                                }
                            }
                            assert(canonical_at(mid, base.len() as int));
                            if base.len() > 0 {
                                assert(mid[base.len() - 1] == base.last());
                                assert(l1[0] == l[0]);
                                assert(canonical_at(mid, base.len() - 1));
                            }
                            lemma_canonical_push(base, y);
                            let ps = mid.push(v);
                            assert(canonical_at(ps, mid.len() as int));
                            assert(ps[mid.len() - 1] == y);
                            assert(canonical_at(ps, mid.len() - 1));
                            lemma_canonical_push(mid, v);
                            lemma_render_push(base, y);
                            lemma_render_push(mid, v);
                            assert(l =~= l1.push('&'));
                            assert(render(ps) =~= s);
                            ps
                        }
                    } else {
                        if l.last() == '&' && c == '&' {
                            assert(s[s.len() - 2] == l.last());
                            assert(double_ampersand_at(s, s.len() - 2));
                        }
                        let lc = l.push(c);
                        let x = PartV::Lit(lc);
                        let ps = base.push(x);
                        assert(amp_ok(lc)) by {
                            assert forall|j: int| 0 <= j < lc.len() - 1 && #[trigger] lc[j] == '&' implies !is_word_char(
                                lc[j + 1],
                            ) by {
                                if j < l.len() - 1 {
                                    assert(l[j] == '&');
                                }
                            }
                        }
                        assert(canonical_at(ps, base.len() as int));
                        if base.len() > 0 {
                            assert(ps[base.len() - 1] == base.last());
                            assert(lc[0] == l[0]);
                            assert(canonical_at(ps, base.len() - 1));
                        }
                        lemma_canonical_push(base, x);
                        lemma_render_push(base, x);
                        assert(render(ps) =~= s);
                        ps
                    }
                },
            }
        }
    }
}

} // verus!
