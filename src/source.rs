use vstd::prelude::*;

use crate::body::{
    entries_rest, spec_code_block, spec_entry, spec_entry_list, spec_key_value_pairs,
};
use crate::lexical::{
    has_char, has_tag, in_class, is_ascii_digit, is_ascii_letter, is_name_char, is_name_start,
    is_string_char, lemma_run_end, push_char, run_end, spec_name_identifier, ws_end, CharClass,
};
use crate::paths::{
    names_rest, path_rest, spec_expression, spec_member_list, spec_reference,
    spec_reference_path,
};
use crate::syntax_tree::{
    keys_unique, map_of, names_view, Expression, ExpressionView, Literal, LiteralView,
    NameIdentifier, Number, NumberView, Reference, ReferencePath, ReferenceView, ResourceBody,
};

verus! {

/// How a path segment is written.
pub open spec fn reference_text(r: ReferenceView) -> Seq<char> {
    match r {
        ReferenceView::Name(n) => n,
        ReferenceView::Super => "super"@,
        ReferenceView::Land => "land"@,
    }
}

/// Each segment preceded by `::`.
pub open spec fn path_tail_text(p: Seq<ReferenceView>) -> Seq<char>
    decreases p.len(),
{
    if p.len() == 0 {
        seq![]
    } else {
        seq![':', ':'] + reference_text(p[0]) + path_tail_text(p.drop_first())
    }
}

pub open spec fn path_text(p: Seq<ReferenceView>) -> Seq<char> {
    if p.len() == 0 {
        seq![]
    } else {
        reference_text(p[0]) + path_tail_text(p.drop_first())
    }
}

/// Each name preceded by `.`.
pub open spec fn names_tail_text(m: Seq<Seq<char>>) -> Seq<char>
    decreases m.len(),
{
    if m.len() == 0 {
        seq![]
    } else {
        seq!['.'] + m[0] + names_tail_text(m.drop_first())
    }
}

pub open spec fn names_text(m: Seq<Seq<char>>) -> Seq<char> {
    if m.len() == 0 {
        seq![]
    } else {
        m[0] + names_tail_text(m.drop_first())
    }
}

/// How an expression is written: strings between double quotes, numbers and
/// paths as they were read.
pub open spec fn expression_text(v: ExpressionView) -> Seq<char> {
    match v {
        ExpressionView::Literal(LiteralView::Boolean(b)) => if b {
            "true"@
        } else {
            "false"@
        },
        ExpressionView::Literal(LiteralView::String(t)) => seq!['"'] + t + seq!['"'],
        ExpressionView::Literal(LiteralView::Number(NumberView::Integer(t))) => t,
        ExpressionView::Literal(LiteralView::Number(NumberView::FloatingPoint(t))) => t,
        ExpressionView::Object(o) => path_text(o.object) + match o.member_path {
            Some(m) => seq!['.'] + names_text(m),
            None => seq![],
        },
        ExpressionView::Reference(p) => path_text(p),
    }
}

/// `key = value`.
pub open spec fn entry_text(e: (Seq<char>, ExpressionView)) -> Seq<char> {
    e.0 + seq![' ', '=', ' '] + expression_text(e.1)
}

pub open spec fn entries_tail_text(l: Seq<(Seq<char>, ExpressionView)>) -> Seq<char>
    decreases l.len(),
{
    if l.len() == 0 {
        seq![]
    } else {
        seq![',', ' '] + entry_text(l[0]) + entries_tail_text(l.drop_first())
    }
}

pub open spec fn entries_text(l: Seq<(Seq<char>, ExpressionView)>) -> Seq<char> {
    if l.len() == 0 {
        seq![]
    } else {
        entry_text(l[0]) + entries_tail_text(l.drop_first())
    }
}

/// A body written out: `{ k = v, ... }`.
pub open spec fn body_text(l: Seq<(Seq<char>, ExpressionView)>) -> Seq<char> {
    seq!['{', ' '] + entries_text(l) + seq![' ', '}']
}

pub open spec fn starts_with(n: Seq<char>, t: Seq<char>) -> bool {
    t.len() <= n.len() && n.subrange(0, t.len() as int) == t
}

pub open spec fn valid_name(n: Seq<char>) -> bool {
    &&& n.len() > 0
    &&& is_name_start(n[0])
    &&& forall|j: int| 1 <= j < n.len() ==> is_name_char(n[j])
}

pub open spec fn valid_reference(r: ReferenceView) -> bool {
    match r {
        ReferenceView::Name(n) => valid_name(n) && !starts_with(n, "super"@) && !starts_with(
            n,
            "land"@,
        ),
        _ => true,
    }
}

pub open spec fn valid_references(p: Seq<ReferenceView>) -> bool {
    forall|j: int| 0 <= j < p.len() ==> valid_reference(#[trigger] p[j])
}

pub open spec fn valid_names(m: Seq<Seq<char>>) -> bool {
    forall|j: int| 0 <= j < m.len() ==> valid_name(#[trigger] m[j])
}

pub open spec fn all_digits(t: Seq<char>) -> bool {
    forall|j: int| 0 <= j < t.len() ==> is_ascii_digit(#[trigger] t[j])
}

pub open spec fn is_float_text(t: Seq<char>, d: int) -> bool {
    &&& 0 < d < t.len() - 1
    &&& t[d] == '.'
    &&& all_digits(t.subrange(0, d))
    &&& all_digits(t.subrange(d + 1, t.len() as int))
}

/// The expressions that the grammar produces.
pub open spec fn valid_expression(v: ExpressionView) -> bool {
    match v {
        ExpressionView::Literal(LiteralView::Boolean(_)) => true,
        ExpressionView::Literal(LiteralView::String(t)) => forall|j: int|
            0 <= j < t.len() ==> is_string_char(#[trigger] t[j]),
        ExpressionView::Literal(LiteralView::Number(NumberView::Integer(t))) => t.len() > 0
            && all_digits(t),
        ExpressionView::Literal(LiteralView::Number(NumberView::FloatingPoint(t))) => exists|d: int|
            is_float_text(t, d),
        ExpressionView::Object(o) => {
            &&& o.object.len() > 0
            &&& valid_references(o.object)
            &&& !starts_with(reference_text(o.object[0]), "true"@)
            &&& !starts_with(reference_text(o.object[0]), "false"@)
            &&& (o.member_path matches Some(m) ==> valid_names(m))
        },
        ExpressionView::Reference(_) => false,
    }
}

pub open spec fn valid_entries(l: Seq<(Seq<char>, ExpressionView)>) -> bool {
    forall|j: int|
        0 <= j < l.len() ==> valid_name(#[trigger] l[j].0) && valid_expression(l[j].1)
}

/// At `p` the text ends, or a space or a comma follows an entry.
pub open spec fn ends_entry(s: Seq<char>, p: int) -> bool {
    p == s.len() || (0 <= p < s.len() && (s[p] == ' ' || s[p] == ','))
}

/// At `p` the text ends, or ` }` closes a listing of entries.
pub open spec fn ends_listing(s: Seq<char>, p: int) -> bool {
    p == s.len() || (0 <= p && p + 1 < s.len() && s[p] == ' ' && s[p + 1] == '}')
}

/// At `p` the text ends or an ASCII character that is no part of a name stands.
pub open spec fn stops_name(s: Seq<char>, p: int) -> bool {
    p == s.len() || (0 <= p < s.len() && s[p] <= '\x7f' && !is_ascii_letter(s[p])
        && !is_ascii_digit(s[p]) && s[p] != '_')
}

proof fn lemma_tag_chars(s: Seq<char>, i: int, t: Seq<char>)
    requires
        has_tag(s, i, t),
    ensures
        forall|j: int| 0 <= j < t.len() ==> s[i + j] == #[trigger] t[j],
{
    assert forall|j: int| 0 <= j < t.len() implies s[i + j] == #[trigger] t[j] by {
        assert(s.subrange(i, i + t.len())[j] == t[j]);
    }
}

proof fn lemma_tag_split(s: Seq<char>, i: int, a: Seq<char>, b: Seq<char>)
    requires
        has_tag(s, i, a + b),
    ensures
        has_tag(s, i, a),
        has_tag(s, i + a.len(), b),
{
    lemma_tag_chars(s, i, a + b);
    assert forall|j: int| 0 <= j < a.len() implies s.subrange(i, i + a.len())[j] == a[j] by {
        assert((a + b)[j] == a[j]);
    }
    assert(s.subrange(i, i + a.len()) =~= a);
    assert forall|j: int| 0 <= j < b.len() implies s.subrange(i + a.len(), i + a.len() + b.len())[j]
        == b[j] by {
        assert((a + b)[a.len() + j] == b[j]);
    }
    assert(s.subrange(i + a.len(), i + a.len() + b.len()) =~= b);
}

proof fn lemma_run_at(s: Seq<char>, i: int, j: int, k: CharClass)
    requires
        0 <= i <= j <= s.len(),
        forall|m: int| i <= m < j ==> in_class(k, s[m]),
        j == s.len() || !in_class(k, s[j]),
    ensures
        run_end(s, i, k) == j,
    decreases j - i,
{
    if i < j {
        lemma_run_at(s, i + 1, j, k);
    }
}

proof fn lemma_name_at(s: Seq<char>, i: int, n: Seq<char>)
    requires
        valid_name(n),
        has_tag(s, i, n),
        stops_name(s, i + n.len()),
    ensures
        spec_name_identifier(s, i) == Some((n, i + n.len())),
{
    lemma_tag_chars(s, i, n);
    assert(s[i + 0] == n[0]);
    assert forall|m: int| i + 1 <= m < i + n.len() implies in_class(CharClass::NameChar, s[m]) by {
        assert(s[i + (m - i)] == n[m - i]);
    }
    lemma_run_at(s, i + 1, i + n.len(), CharClass::NameChar);
}

/// A name that does not start with a keyword, and is not followed by a name
/// character, does not carry the keyword either.
proof fn lemma_not_keyword(s: Seq<char>, i: int, n: Seq<char>, kw: Seq<char>)
    requires
        has_tag(s, i, n),
        stops_name(s, i + n.len()),
        forall|j: int| 0 <= j < kw.len() ==> is_ascii_letter(#[trigger] kw[j]),
        !starts_with(n, kw),
    ensures
        !has_tag(s, i, kw),
{
    if has_tag(s, i, kw) {
        lemma_tag_chars(s, i, kw);
        lemma_tag_chars(s, i, n);
        if kw.len() <= n.len() {
            assert(n.subrange(0, kw.len() as int) =~= kw);
        } else {
            assert(s[i + n.len()] == kw[n.len() as int]);
        }
    }
}

proof fn lemma_keywords()
    ensures
        "super"@ == seq!['s', 'u', 'p', 'e', 'r'],
        "land"@ == seq!['l', 'a', 'n', 'd'],
        "true"@ == seq!['t', 'r', 'u', 'e'],
        "false"@ == seq!['f', 'a', 'l', 's', 'e'],
{
    reveal_strlit("super");
    reveal_strlit("land");
    reveal_strlit("true");
    reveal_strlit("false");
    assert("super"@ =~= seq!['s', 'u', 'p', 'e', 'r']);
    assert("land"@ =~= seq!['l', 'a', 'n', 'd']);
    assert("true"@ =~= seq!['t', 'r', 'u', 'e']);
    assert("false"@ =~= seq!['f', 'a', 'l', 's', 'e']);
}

proof fn lemma_reference_at(s: Seq<char>, i: int, r: ReferenceView)
    requires
        valid_reference(r),
        has_tag(s, i, reference_text(r)),
        stops_name(s, i + reference_text(r).len()),
    ensures
        spec_reference(s, i) == Some((r, i + reference_text(r).len())),
{
    lemma_keywords();
    lemma_tag_chars(s, i, reference_text(r));
    match r {
        ReferenceView::Name(n) => {
            lemma_not_keyword(s, i, n, "super"@);
            lemma_not_keyword(s, i, n, "land"@);
            lemma_name_at(s, i, n);
        },
        ReferenceView::Super => {},
        ReferenceView::Land => {
            if has_tag(s, i, "super"@) {
                lemma_tag_chars(s, i, "super"@);
                assert(s[i + 0] == 's');
                assert(s[i + 0] == 'l');
            }
        },
    }
}

/// At `p` a path segment is the last one.
pub open spec fn stops_segment(s: Seq<char>, p: int) -> bool {
    stops_name(s, p) && (p < s.len() ==> s[p] != ':')
}

/// At `p` a member list is done.
pub open spec fn stops_path(s: Seq<char>, p: int) -> bool {
    stops_name(s, p) && (p < s.len() ==> s[p] != ':' && s[p] != '.')
}

proof fn lemma_path_tail_at(s: Seq<char>, i: int, q: Seq<ReferenceView>)
    requires
        0 <= i,
        valid_references(q),
        has_tag(s, i, path_tail_text(q)),
        stops_segment(s, i + path_tail_text(q).len()),
    ensures
        path_rest(s, i) == (q, i + path_tail_text(q).len()),
    decreases q.len(),
{
    if q.len() == 0 {
        assert(q =~= seq![]);
    } else {
        let r = q[0];
        let q2 = q.drop_first();
        assert(valid_reference(q[0]));
        assert(valid_references(q2)) by {
            assert forall|j: int| 0 <= j < q2.len() implies valid_reference(#[trigger] q2[j]) by {
                assert(q2[j] == q[j + 1]);
            }
        }
        let sep: Seq<char> = seq![':', ':'];
        lemma_tag_split(s, i, sep + reference_text(r), path_tail_text(q2));
        lemma_tag_split(s, i, sep, reference_text(r));
        lemma_tag_chars(s, i, sep);
        assert(s[i + 0] == ':' && s[i + 1] == ':');
        let e = i + 2 + reference_text(r).len();
        if q2.len() > 0 {
            let sep2: Seq<char> = seq![':', ':'];
            lemma_tag_split(s, e, sep2 + reference_text(q2[0]), path_tail_text(q2.drop_first()));
            lemma_tag_split(s, e, sep2, reference_text(q2[0]));
            lemma_tag_chars(s, e, sep2);
            assert(s[e + 0] == ':');
        }
        lemma_reference_at(s, i + 2, r);
        lemma_path_tail_at(s, e, q2);
        assert(q =~= seq![r] + q2);
    }
}

proof fn lemma_path_at(s: Seq<char>, i: int, p: Seq<ReferenceView>)
    requires
        0 <= i,
        p.len() > 0,
        valid_references(p),
        has_tag(s, i, path_text(p)),
        stops_segment(s, i + path_text(p).len()),
    ensures
        spec_reference_path(s, i) == Some((p, i + path_text(p).len())),
{
    let r = p[0];
    let q = p.drop_first();
    assert(valid_reference(p[0]));
    assert(valid_references(q)) by {
        assert forall|j: int| 0 <= j < q.len() implies valid_reference(#[trigger] q[j]) by {
            assert(q[j] == p[j + 1]);
        }
    }
    lemma_tag_split(s, i, reference_text(r), path_tail_text(q));
    let e = i + reference_text(r).len();
    if q.len() > 0 {
        let sep: Seq<char> = seq![':', ':'];
        lemma_tag_split(s, e, sep + reference_text(q[0]), path_tail_text(q.drop_first()));
        lemma_tag_split(s, e, sep, reference_text(q[0]));
        lemma_tag_chars(s, e, sep);
        assert(s[e + 0] == ':');
    }
    lemma_reference_at(s, i, r);
    lemma_path_tail_at(s, e, q);
    assert(p =~= seq![r] + q);
}

proof fn lemma_names_tail_at(s: Seq<char>, i: int, m: Seq<Seq<char>>)
    requires
        0 <= i,
        valid_names(m),
        has_tag(s, i, names_tail_text(m)),
        stops_path(s, i + names_tail_text(m).len()),
    ensures
        names_rest(s, i) == (m, i + names_tail_text(m).len()),
    decreases m.len(),
{
    if m.len() == 0 {
        assert(m =~= seq![]);
    } else {
        let n = m[0];
        let m2 = m.drop_first();
        assert(valid_name(m[0]));
        assert(valid_names(m2)) by {
            assert forall|j: int| 0 <= j < m2.len() implies valid_name(#[trigger] m2[j]) by {
                assert(m2[j] == m[j + 1]);
            }
        }
        let dot: Seq<char> = seq!['.'];
        lemma_tag_split(s, i, dot + n, names_tail_text(m2));
        lemma_tag_split(s, i, dot, n);
        lemma_tag_chars(s, i, dot);
        assert(dot[0] == '.');
        assert(s[i + 0] == '.');
        let e = i + 1 + n.len();
        if m2.len() > 0 {
            lemma_tag_split(s, e, dot + m2[0], names_tail_text(m2.drop_first()));
            lemma_tag_split(s, e, dot, m2[0]);
            lemma_tag_chars(s, e, dot);
            assert(dot[0] == '.');
            assert(s[e + 0] == '.');
        }
        lemma_name_at(s, i + 1, n);
        lemma_names_tail_at(s, e, m2);
        assert(m =~= seq![n] + m2);
    }
}

proof fn lemma_member_list_at(s: Seq<char>, i: int, m: Seq<Seq<char>>)
    requires
        0 <= i,
        valid_names(m),
        has_tag(s, i, names_text(m)),
        stops_path(s, i + names_text(m).len()),
    ensures
        spec_member_list(s, i) == (m, i + names_text(m).len()),
{
    if m.len() == 0 {
        assert(m =~= seq![]);
    } else {
        let n = m[0];
        let m2 = m.drop_first();
        assert(valid_name(m[0]));
        assert(valid_names(m2)) by {
            assert forall|j: int| 0 <= j < m2.len() implies valid_name(#[trigger] m2[j]) by {
                assert(m2[j] == m[j + 1]);
            }
        }
        lemma_tag_split(s, i, n, names_tail_text(m2));
        let e = i + n.len();
        if m2.len() > 0 {
            let dot: Seq<char> = seq!['.'];
            lemma_tag_split(s, e, dot + m2[0], names_tail_text(m2.drop_first()));
            lemma_tag_split(s, e, dot, m2[0]);
            lemma_tag_chars(s, e, dot);
            assert(dot[0] == '.');
            assert(s[e + 0] == '.');
        }
        lemma_name_at(s, i, n);
        lemma_names_tail_at(s, e, m2);
        assert(m =~= seq![n] + m2);
    }
}

proof fn lemma_expression_first(v: ExpressionView)
    requires
        valid_expression(v),
    ensures
        expression_text(v).len() > 0,
        !in_class(CharClass::Multispace, expression_text(v)[0]),
{
    lemma_keywords();
    match v {
        ExpressionView::Literal(LiteralView::Number(NumberView::Integer(t))) => {
            assert(is_ascii_digit(t[0]));
        },
        ExpressionView::Literal(LiteralView::Number(NumberView::FloatingPoint(t))) => {
            let d = choose|d: int| is_float_text(t, d);
            assert(t.subrange(0, d)[0] == t[0]);
        },
        ExpressionView::Object(o) => {
            let r = o.object[0];
            assert(valid_reference(r));
            assert(path_text(o.object)[0] == reference_text(r)[0]);
        },
        _ => {},
    }
}

/// An expression written out, followed by a space or a comma, reads back as itself.
#[verifier::spinoff_prover]
#[verifier::rlimit(80)]
proof fn lemma_expression_at(s: Seq<char>, i: int, v: ExpressionView)
    requires
        0 <= i,
        valid_expression(v),
        has_tag(s, i, expression_text(v)),
        ends_entry(s, i + expression_text(v).len()),
    ensures
        spec_expression(s, i) == Some((v, i + expression_text(v).len())),
{
    lemma_keywords();
    let p = i + expression_text(v).len();
    lemma_tag_chars(s, i, expression_text(v));
    match v {
        ExpressionView::Literal(LiteralView::Boolean(b)) => {
            if !b {
                assert(s[i + 0] == 'f');
                if has_tag(s, i, "true"@) {
                    lemma_tag_chars(s, i, "true"@);
                    assert(s[i + 0] == 't');
                }
            }
        },
        ExpressionView::Literal(LiteralView::String(t)) => {
            let q: Seq<char> = seq!['"'];
            lemma_tag_split(s, i, q + t, q);
            lemma_tag_split(s, i, q, t);
            lemma_tag_chars(s, i, q);
            lemma_tag_chars(s, i + 1, t);
            lemma_tag_chars(s, i + 1 + t.len(), q);
            assert(q[0] == '"');
            assert(s[i + 0] == '"');
            assert(s[i + 1 + t.len() + 0] == '"');
            assert forall|m: int| i + 1 <= m < i + 1 + t.len() implies in_class(
                CharClass::StringChar,
                s[m],
            ) by {
                assert(s[i + 1 + (m - i - 1)] == t[m - i - 1]);
            }
            lemma_run_at(s, i + 1, i + 1 + t.len(), CharClass::StringChar);
            assert(!has_tag(s, i, "true"@)) by {
                if has_tag(s, i, "true"@) {
                    lemma_tag_chars(s, i, "true"@);
                }
            }
            assert(!has_tag(s, i, "false"@)) by {
                if has_tag(s, i, "false"@) {
                    lemma_tag_chars(s, i, "false"@);
                }
            }
        },
        ExpressionView::Literal(LiteralView::Number(NumberView::Integer(t))) => {
            assert(s[i + 0] == t[0]);
            assert forall|m: int| i <= m < p implies in_class(CharClass::Digit, s[m]) by {
                assert(s[i + (m - i)] == t[m - i]);
            }
            lemma_run_at(s, i, p, CharClass::Digit);
            assert(!has_tag(s, i, "true"@)) by {
                if has_tag(s, i, "true"@) {
                    lemma_tag_chars(s, i, "true"@);
                }
            }
            assert(!has_tag(s, i, "false"@)) by {
                if has_tag(s, i, "false"@) {
                    lemma_tag_chars(s, i, "false"@);
                }
            }
            assert(s.subrange(i, p) =~= t);
        },
        ExpressionView::Literal(LiteralView::Number(NumberView::FloatingPoint(t))) => {
            let d = choose|d: int| is_float_text(t, d);
            assert(t.subrange(0, d)[0] == t[0]);
            assert(s[i + 0] == t[0]);
            assert forall|m: int| i <= m < i + d implies in_class(CharClass::Digit, s[m]) by {
                assert(s[i + (m - i)] == t[m - i]);
                assert(t.subrange(0, d)[m - i] == t[m - i]);
            }
            assert(s[i + d] == t[d]);
            lemma_run_at(s, i, i + d, CharClass::Digit);
            assert forall|m: int| i + d + 1 <= m < p implies in_class(CharClass::Digit, s[m]) by {
                assert(s[i + (m - i)] == t[m - i]);
                assert(t.subrange(d + 1, t.len() as int)[m - i - d - 1] == t[m - i]);
            }
            lemma_run_at(s, i + d + 1, p, CharClass::Digit);
            assert(!has_tag(s, i, "true"@)) by {
                if has_tag(s, i, "true"@) {
                    lemma_tag_chars(s, i, "true"@);
                }
            }
            assert(!has_tag(s, i, "false"@)) by {
                if has_tag(s, i, "false"@) {
                    lemma_tag_chars(s, i, "false"@);
                }
            }
            assert(s.subrange(i, p) =~= t);
        },
        ExpressionView::Object(o) => {
            let r = o.object[0];
            let tail = match o.member_path {
                Some(m) => seq!['.'] + names_text(m),
                None => seq![],
            };
            lemma_tag_split(s, i, path_text(o.object), tail);
            let e = i + path_text(o.object).len();
            lemma_tag_split(s, i, reference_text(r), path_tail_text(o.object.drop_first()));
            let r_end = i + reference_text(r).len();
            if o.object.len() > 1 {
                let q = o.object.drop_first();
                let sep: Seq<char> = seq![':', ':'];
                lemma_tag_split(s, r_end, sep + reference_text(q[0]), path_tail_text(q.drop_first()));
                lemma_tag_split(s, r_end, sep, reference_text(q[0]));
                lemma_tag_chars(s, r_end, sep);
                assert(s[r_end + 0] == ':');
            }
            if let Some(m) = o.member_path {
                let dot: Seq<char> = seq!['.'];
                lemma_tag_split(s, e, dot, names_text(m));
                lemma_tag_chars(s, e, dot);
                assert(dot[0] == '.');
                assert(s[e + 0] == '.');
                lemma_member_list_at(s, e + 1, m);
            } else {
                assert(tail =~= seq![]);
            }
            assert(stops_name(s, r_end));
            assert(valid_reference(r));
            lemma_tag_chars(s, i, reference_text(r));
            assert(s[i + 0] == reference_text(r)[0]);
            lemma_not_keyword(s, i, reference_text(r), "true"@);
            lemma_not_keyword(s, i, reference_text(r), "false"@);
            lemma_run_at(s, i, i, CharClass::Digit);
            lemma_path_at(s, i, o.object);
        },
        ExpressionView::Reference(_) => {},
    }
}

proof fn lemma_entry_at(s: Seq<char>, i: int, kv: (Seq<char>, ExpressionView))
    requires
        0 <= i,
        valid_name(kv.0),
        valid_expression(kv.1),
        has_tag(s, i, entry_text(kv)),
        ends_entry(s, i + entry_text(kv).len()),
    ensures
        spec_entry(s, i) == Some((kv, i + entry_text(kv).len())),
{
    let (k, v) = kv;
    let eq: Seq<char> = seq![' ', '=', ' '];
    lemma_tag_split(s, i, k + eq, expression_text(v));
    lemma_tag_split(s, i, k, eq);
    lemma_tag_chars(s, i + k.len(), eq);
    let a = i + k.len();
    assert(eq[0] == ' ' && eq[1] == '=' && eq[2] == ' ');
    assert(s[a + 0] == ' ' && s[a + 1] == '=' && s[a + 2] == ' ');
    lemma_name_at(s, i, k);
    lemma_run_at(s, a, a + 1, CharClass::Multispace);
    lemma_expression_first(v);
    lemma_tag_chars(s, a + 3, expression_text(v));
    assert(s[a + 3 + 0] == expression_text(v)[0]);
    lemma_run_at(s, a + 2, a + 3, CharClass::Multispace);
    lemma_expression_at(s, a + 3, v);
}

proof fn lemma_entries_tail_at(s: Seq<char>, i: int, l: Seq<(Seq<char>, ExpressionView)>)
    requires
        0 <= i,
        valid_entries(l),
        has_tag(s, i, entries_tail_text(l)),
        ends_listing(s, i + entries_tail_text(l).len()),
    ensures
        entries_rest(s, i) == (l, i + entries_tail_text(l).len()),
    decreases l.len(),
{
    if l.len() == 0 {
        if i == s.len() {
            lemma_run_at(s, i, i, CharClass::Space);
        } else {
            lemma_run_at(s, i, i + 1, CharClass::Space);
        }
        assert(l =~= seq![]);
    } else {
        let kv = l[0];
        let l2 = l.drop_first();
        assert(valid_name(l[0].0) && valid_expression(l[0].1));
        assert(valid_entries(l2)) by {
            assert forall|j: int| 0 <= j < l2.len() implies valid_name(#[trigger] l2[j].0)
                && valid_expression(l2[j].1) by {
                assert(l2[j] == l[j + 1]);
            }
        }
        let sep: Seq<char> = seq![',', ' '];
        lemma_tag_split(s, i, sep + entry_text(kv), entries_tail_text(l2));
        lemma_tag_split(s, i, sep, entry_text(kv));
        lemma_tag_chars(s, i, sep);
        assert(sep[0] == ',' && sep[1] == ' ');
        assert(s[i + 0] == ',' && s[i + 1] == ' ');
        let e = i + 2 + entry_text(kv).len();
        if l2.len() > 0 {
            lemma_tag_split(s, e, sep + entry_text(l2[0]), entries_tail_text(l2.drop_first()));
            lemma_tag_split(s, e, sep, entry_text(l2[0]));
            lemma_tag_chars(s, e, sep);
            assert(s[e + 0] == ',');
        }
        lemma_tag_chars(s, i + 2, entry_text(kv));
        let (k, v) = kv;
        assert(entry_text(kv)[0] == k[0]);
        assert(s[i + 2 + 0] == k[0]);
        lemma_run_at(s, i, i, CharClass::Space);
        lemma_run_at(s, i + 1, i + 2, CharClass::Space);
        lemma_entry_at(s, i + 2, kv);
        lemma_entries_tail_at(s, e, l2);
        assert(l =~= seq![kv] + l2);
    }
}

proof fn lemma_entry_list_text(s: Seq<char>, q: int, l: Seq<(Seq<char>, ExpressionView)>)
    requires
        0 <= q,
        l.len() > 0,
        valid_entries(l),
        has_tag(s, q, entries_text(l)),
        ends_listing(s, q + entries_text(l).len()),
    ensures
        spec_entry_list(s, q) == (l, q + entries_text(l).len() as int),
{
    let kv = l[0];
    let l2 = l.drop_first();
    assert(valid_name(l[0].0) && valid_expression(l[0].1));
    assert(valid_entries(l2)) by {
        assert forall|j: int| 0 <= j < l2.len() implies valid_name(#[trigger] l2[j].0)
            && valid_expression(l2[j].1) by {
            assert(l2[j] == l[j + 1]);
        }
    }
    lemma_tag_split(s, q, entry_text(kv), entries_tail_text(l2));
    let e: int = q + entry_text(kv).len() as int;
    if l2.len() > 0 {
        let sep: Seq<char> = seq![',', ' '];
        lemma_tag_split(s, e, sep + entry_text(l2[0]), entries_tail_text(l2.drop_first()));
        lemma_tag_split(s, e, sep, entry_text(l2[0]));
        lemma_tag_chars(s, e, sep);
        assert(sep[0] == ',');
        assert(s[e + 0] == ',');
    }
    lemma_entry_at(s, q, kv);
    lemma_entries_tail_at(s, e, l2);
    assert(l =~= seq![kv] + l2);
}

proof fn lemma_pairs_text(s: Seq<char>, l: Seq<(Seq<char>, ExpressionView)>)
    requires
        l.len() > 0,
        valid_entries(l),
        has_tag(s, 2, entries_text(l)),
        2 + entries_text(l).len() + 1 < s.len(),
        s[2 + entries_text(l).len() as int] == ' ',
        s[3 + entries_text(l).len() as int] == '}',
    ensures
        spec_key_value_pairs(s, 2) == (map_of(l), 2 + entries_text(l).len() as int),
{
    lemma_entry_list_text(s, 2, l);
}

/// A listing of valid entries, written out as a body, reads back as the
/// mapping of that listing.
#[verifier::spinoff_prover]
#[verifier::rlimit(100)]
pub proof fn lemma_body_text_parses(l: Seq<(Seq<char>, ExpressionView)>)
    requires
        valid_entries(l),
    ensures
        spec_code_block(body_text(l), 0) == Some((map_of(l), body_text(l).len() as int)),
{
    let s = body_text(l);
    let open: Seq<char> = seq!['{', ' '];
    let close: Seq<char> = seq![' ', '}'];
    assert(has_tag(s, 0, s)) by {
        assert(s.subrange(0, s.len() as int) =~= s);
    }
    lemma_tag_split(s, 0, open + entries_text(l), close);
    lemma_tag_split(s, 0, open, entries_text(l));
    lemma_tag_chars(s, 0, open);
    let p: int = 2 + entries_text(l).len() as int;
    lemma_tag_chars(s, p, close);
    assert(open[0] == '{' && open[1] == ' ' && close[0] == ' ' && close[1] == '}');
    assert(s[0int] == '{' && s[1int] == ' ' && s[p + 0] == ' ' && s[p + 1] == '}');
    lemma_run_at(s, 0, 0, CharClass::Multispace);
    lemma_run_at(s, p + 2, p + 2, CharClass::Multispace);
    if l.len() == 0 {
        lemma_run_at(s, 1, 3, CharClass::Multispace);
        lemma_run_at(s, 3, 3, CharClass::Multispace);
        assert(l =~= seq![]);
        assert(spec_entry(s, 3) is None);
        assert(spec_key_value_pairs(s, 3) == (map_of(l), 3int));
    } else {
        assert(valid_name(l[0].0));
        lemma_tag_chars(s, 2, entries_text(l));
        assert(entries_text(l)[0] == l[0].0[0]);
        assert(s[2int] == l[0].0[0]);
        lemma_run_at(s, 1, 2, CharClass::Multispace);
        lemma_pairs_text(s, l);
        lemma_run_at(s, p, p + 1, CharClass::Multispace);
    }
}

proof fn lemma_parsed_name_valid(s: Seq<char>, i: int)
    requires
        0 <= i <= s.len(),
    ensures
        spec_name_identifier(s, i) matches Some((n, e)) ==> valid_name(n) && n == s.subrange(i, e)
            && e == i + n.len(),
{
    if let Some((n, e)) = spec_name_identifier(s, i) {
        lemma_run_end(s, i + 1, CharClass::NameChar);
        assert forall|j: int| 1 <= j < n.len() implies is_name_char(n[j]) by {
            assert(n[j] == s[i + j]);
        }
    }
}

/// A name that was read where a keyword does not stand does not start with it.
proof fn lemma_read_name_lacks_keyword(s: Seq<char>, i: int, n: Seq<char>, kw: Seq<char>)
    requires
        0 <= i,
        i + n.len() <= s.len(),
        n == s.subrange(i, i + n.len()),
        !has_tag(s, i, kw),
    ensures
        !starts_with(n, kw),
{
    if starts_with(n, kw) {
        assert(s.subrange(i, i + kw.len()) =~= n.subrange(0, kw.len() as int));
    }
}

proof fn lemma_parsed_reference_valid(s: Seq<char>, i: int)
    requires
        0 <= i <= s.len(),
    ensures
        spec_reference(s, i) matches Some((r, e)) ==> valid_reference(r) && (!has_tag(s, i, "true"@)
            ==> !starts_with(reference_text(r), "true"@)) && (!has_tag(s, i, "false"@)
            ==> !starts_with(reference_text(r), "false"@)),
{
    lemma_keywords();
    lemma_parsed_name_valid(s, i);
    crate::paths::lemma_name_end(s, i);
    if let Some((r, e)) = spec_reference(s, i) {
        match r {
            ReferenceView::Name(n) => {
                lemma_read_name_lacks_keyword(s, i, n, "super"@);
                lemma_read_name_lacks_keyword(s, i, n, "land"@);
                if !has_tag(s, i, "true"@) {
                    lemma_read_name_lacks_keyword(s, i, n, "true"@);
                }
                if !has_tag(s, i, "false"@) {
                    lemma_read_name_lacks_keyword(s, i, n, "false"@);
                }
            },
            ReferenceView::Super => {
                assert(("super"@).subrange(0, 4)[0] == 's');
                assert(("super"@).subrange(0, 5)[0] == 's');
            },
            ReferenceView::Land => {
                assert(("land"@).subrange(0, 4)[0] == 'l');
            },
        }
    }
}

proof fn lemma_parsed_path_rest_valid(s: Seq<char>, i: int)
    requires
        0 <= i <= s.len(),
    ensures
        valid_references(path_rest(s, i).0),
        i <= path_rest(s, i).1 <= s.len(),
    decreases s.len() - i,
{
    crate::paths::lemma_path_rest_end(s, i);
    if has_char(s, i, ':') && has_char(s, i + 1, ':') {
        crate::paths::lemma_reference_end(s, i + 2);
        lemma_parsed_reference_valid(s, i + 2);
        if let Some((r, e)) = spec_reference(s, i + 2) {
            lemma_parsed_path_rest_valid(s, e);
            let rest = path_rest(s, e).0;
            let all = seq![r] + rest;
            assert forall|j: int| 0 <= j < all.len() implies valid_reference(#[trigger] all[j]) by {
                if j > 0 {
                    assert(all[j] == rest[j - 1]);
                }
            }
        }
    }
}

proof fn lemma_parsed_names_rest_valid(s: Seq<char>, i: int)
    requires
        0 <= i <= s.len(),
    ensures
        valid_names(names_rest(s, i).0),
    decreases s.len() - i,
{
    if has_char(s, i, '.') {
        crate::paths::lemma_name_end(s, i + 1);
        lemma_parsed_name_valid(s, i + 1);
        if let Some((n, e)) = spec_name_identifier(s, i + 1) {
            lemma_parsed_names_rest_valid(s, e);
            let rest = names_rest(s, e).0;
            let all = seq![n] + rest;
            assert forall|j: int| 0 <= j < all.len() implies valid_name(#[trigger] all[j]) by {
                if j > 0 {
                    assert(all[j] == rest[j - 1]);
                }
            }
        }
    }
}

proof fn lemma_parsed_expression_valid(s: Seq<char>, i: int)
    requires
        0 <= i <= s.len(),
    ensures
        spec_expression(s, i) matches Some((v, _)) ==> valid_expression(v),
{
    lemma_run_end(s, i, CharClass::Digit);
    let d = run_end(s, i, CharClass::Digit);
    if d + 1 <= s.len() {
        lemma_run_end(s, d + 1, CharClass::Digit);
    }
    if i + 1 <= s.len() {
        lemma_run_end(s, i + 1, CharClass::StringChar);
    }
    if let Some((v, _)) = spec_expression(s, i) {
        match v {
            ExpressionView::Literal(LiteralView::String(t)) => {
                assert forall|j: int| 0 <= j < t.len() implies is_string_char(#[trigger] t[j]) by {
                    assert(t[j] == s[i + 1 + j]);
                }
            },
            ExpressionView::Literal(LiteralView::Number(NumberView::Integer(t))) => {
                assert forall|j: int| 0 <= j < t.len() implies is_ascii_digit(#[trigger] t[j]) by {
                    assert(t[j] == s[i + j]);
                }
            },
            ExpressionView::Literal(LiteralView::Number(NumberView::FloatingPoint(t))) => {
                let e = run_end(s, d + 1, CharClass::Digit);
                assert(t == s.subrange(i, e));
                assert(all_digits(t.subrange(0, d - i))) by {
                    assert forall|j: int| 0 <= j < d - i implies is_ascii_digit(
                        #[trigger] t.subrange(0, d - i)[j],
                    ) by {
                        assert(t.subrange(0, d - i)[j] == s[i + j]);
                    }
                }
                assert(all_digits(t.subrange(d - i + 1, t.len() as int))) by {
                    assert forall|j: int| 0 <= j < t.len() - (d - i + 1) implies is_ascii_digit(
                        #[trigger] t.subrange(d - i + 1, t.len() as int)[j],
                    ) by {
                        assert(t.subrange(d - i + 1, t.len() as int)[j] == s[d + 1 + j]);
                    }
                }
                assert(is_float_text(t, d - i));
            },
            ExpressionView::Object(o) => {
                crate::paths::lemma_reference_end(s, i);
                lemma_parsed_reference_valid(s, i);
                let (r, e) = spec_reference(s, i)->0;
                lemma_parsed_path_rest_valid(s, e);
                let rest = path_rest(s, e).0;
                let all = seq![r] + rest;
                assert(o.object == all);
                assert forall|j: int| 0 <= j < all.len() implies valid_reference(#[trigger] all[j]) by {
                    if j > 0 {
                        assert(all[j] == rest[j - 1]);
                    }
                }
                let f = path_rest(s, e).1;
                if has_char(s, f, '.') {
                    lemma_parsed_name_valid(s, f + 1);
                    if let Some((n, g)) = spec_name_identifier(s, f + 1) {
                        crate::paths::lemma_name_end(s, f + 1);
                        lemma_parsed_names_rest_valid(s, g);
                        let mrest = names_rest(s, g).0;
                        let mall = seq![n] + mrest;
                        assert forall|j: int| 0 <= j < mall.len() implies valid_name(
                            #[trigger] mall[j],
                        ) by {
                            if j > 0 {
                                assert(mall[j] == mrest[j - 1]);
                            }
                        }
                    } else {
                        assert(valid_names(Seq::<Seq<char>>::empty()));
                    }
                }
            },
            _ => {},
        }
    }
}

proof fn lemma_parsed_entry_valid(s: Seq<char>, i: int)
    requires
        0 <= i <= s.len(),
    ensures
        spec_entry(s, i) matches Some((kv, _)) ==> valid_name(kv.0) && valid_expression(kv.1),
{
    lemma_parsed_name_valid(s, i);
    crate::paths::lemma_name_end(s, i);
    if let Some((_, e)) = spec_name_identifier(s, i) {
        lemma_run_end(s, e, CharClass::Multispace);
        let j = ws_end(s, e);
        if has_char(s, j, '=') {
            lemma_run_end(s, j + 1, CharClass::Multispace);
            lemma_parsed_expression_valid(s, ws_end(s, j + 1));
        }
    }
}

proof fn lemma_parsed_entries_rest_valid(s: Seq<char>, i: int)
    requires
        0 <= i <= s.len(),
    ensures
        valid_entries(entries_rest(s, i).0),
    decreases s.len() - i,
{
    crate::body::lemma_entry_separator_end(s, i);
    if let Some(j) = crate::body::spec_entry_separator(s, i) {
        crate::body::lemma_entry_end(s, j);
        lemma_parsed_entry_valid(s, j);
        if let Some((kv, e)) = spec_entry(s, j) {
            lemma_parsed_entries_rest_valid(s, e);
            let rest = entries_rest(s, e).0;
            let all = seq![kv] + rest;
            assert forall|k: int| 0 <= k < all.len() implies valid_name(#[trigger] all[k].0)
                && valid_expression(all[k].1) by {
                if k > 0 {
                    assert(all[k] == rest[k - 1]);
                }
            }
        }
    }
}

proof fn lemma_parsed_entry_list_valid(s: Seq<char>, i: int)
    requires
        0 <= i <= s.len(),
    ensures
        valid_entries(spec_entry_list(s, i).0),
{
    crate::body::lemma_entry_end(s, i);
    lemma_parsed_entry_valid(s, i);
    if let Some((kv, e)) = spec_entry(s, i) {
        lemma_parsed_entries_rest_valid(s, e);
        let rest = entries_rest(s, e).0;
        let all = seq![kv] + rest;
        assert forall|k: int| 0 <= k < all.len() implies valid_name(#[trigger] all[k].0)
            && valid_expression(all[k].1) by {
            if k > 0 {
                assert(all[k] == rest[k - 1]);
            }
        }
    }
}

proof fn lemma_map_of_valid(l: Seq<(Seq<char>, ExpressionView)>, k: Seq<char>)
    requires
        valid_entries(l),
        map_of(l).contains_key(k),
    ensures
        valid_name(k),
        valid_expression(map_of(l)[k]),
    decreases l.len(),
{
    let t = l.drop_last();
    assert(valid_name(l[l.len() - 1].0) && valid_expression(l[l.len() - 1].1));
    if k != l.last().0 {
        assert(valid_entries(t)) by {
            assert forall|j: int| 0 <= j < t.len() implies valid_name(#[trigger] t[j].0)
                && valid_expression(t[j].1) by {
                assert(t[j] == l[j]);
            }
        }
        lemma_map_of_valid(t, k);
    }
}

/// Any listing, keys unique, of the mapping of a body that was read has valid entries.
proof fn lemma_listing_of_parsed_body_valid(
    s: Seq<char>,
    i: int,
    l: Seq<(Seq<char>, ExpressionView)>,
)
    requires
        0 <= i <= s.len(),
        keys_unique(l),
        match spec_code_block(s, i) {
            Some((m, _)) => map_of(l) == m,
            None => false,
        },
    ensures
        valid_entries(l),
{
    lemma_run_end(s, i, CharClass::Multispace);
    let a = ws_end(s, i);
    lemma_run_end(s, a + 1, CharClass::Multispace);
    let parsed = spec_entry_list(s, ws_end(s, a + 1)).0;
    lemma_parsed_entry_list_valid(s, ws_end(s, a + 1));
    assert(map_of(parsed) == map_of(l));
    assert forall|j: int| 0 <= j < l.len() implies valid_name(#[trigger] l[j].0) && valid_expression(
        l[j].1,
    ) by {
        crate::syntax_tree::lemma_map_of_at(l, j);
        lemma_map_of_valid(parsed, l[j].0);
    }
}

/// A body that was read, written back out with its entries listed in any
/// order, reads back as the same mapping.
pub proof fn lemma_body_round_trip(s: Seq<char>, i: int, l: Seq<(Seq<char>, ExpressionView)>)
    requires
        0 <= i <= s.len(),
        keys_unique(l),
        match spec_code_block(s, i) {
            Some((m, _)) => map_of(l) == m,
            None => false,
        },
    ensures
        spec_code_block(body_text(l), 0) == Some((map_of(l), body_text(l).len() as int)),
{
    lemma_listing_of_parsed_body_valid(s, i, l);
    lemma_body_text_parses(l);
}

/// The entries of a body that was read, written out as a bare listing
/// `k = v, ...` in any order, read back by `key_value_pairs` as the same
/// mapping, to the end of the text.
pub proof fn lemma_listing_round_trip(s: Seq<char>, i: int, l: Seq<(Seq<char>, ExpressionView)>)
    requires
        0 <= i <= s.len(),
        keys_unique(l),
        match spec_code_block(s, i) {
            Some((m, _)) => map_of(l) == m,
            None => false,
        },
    ensures
        spec_key_value_pairs(entries_text(l), 0) == (map_of(l), entries_text(l).len() as int),
{
    lemma_listing_of_parsed_body_valid(s, i, l);
    let t = entries_text(l);
    if l.len() == 0 {
        assert(spec_entry(t, 0) is None);
    } else {
        assert(has_tag(t, 0, t)) by {
            assert(t.subrange(0, t.len() as int) =~= t);
        }
        lemma_entry_list_text(t, 0, l);
    }
}

proof fn lemma_path_tail_push(q: Seq<ReferenceView>, r: ReferenceView)
    ensures
        path_tail_text(q.push(r)) == path_tail_text(q) + seq![':', ':'] + reference_text(r),
    decreases q.len(),
{
    if q.len() == 0 {
        assert(q.push(r).drop_first() =~= Seq::<ReferenceView>::empty());
        assert(path_tail_text(Seq::<ReferenceView>::empty()) =~= Seq::<char>::empty());
        assert(q.push(r)[0] == r);
        assert(path_tail_text(q.push(r)) =~= seq![':', ':'] + reference_text(r));
        assert(path_tail_text(q) =~= Seq::<char>::empty());
        assert(path_tail_text(q) + seq![':', ':'] + reference_text(r) =~= seq![':', ':']
            + reference_text(r));
    } else {
        assert(q.push(r).drop_first() =~= q.drop_first().push(r));
        lemma_path_tail_push(q.drop_first(), r);
        assert(path_tail_text(q.push(r)) =~= path_tail_text(q) + seq![':', ':'] + reference_text(r));
    }
}

proof fn lemma_path_push(q: Seq<ReferenceView>, r: ReferenceView)
    requires
        q.len() > 0,
    ensures
        path_text(q.push(r)) == path_text(q) + seq![':', ':'] + reference_text(r),
{
    assert(q.push(r).drop_first() =~= q.drop_first().push(r));
    lemma_path_tail_push(q.drop_first(), r);
    assert(path_text(q.push(r)) =~= path_text(q) + seq![':', ':'] + reference_text(r));
}

proof fn lemma_names_tail_push(m: Seq<Seq<char>>, n: Seq<char>)
    ensures
        names_tail_text(m.push(n)) == names_tail_text(m) + seq!['.'] + n,
    decreases m.len(),
{
    if m.len() == 0 {
        assert(m.push(n).drop_first() =~= Seq::<Seq<char>>::empty());
        assert(names_tail_text(Seq::<Seq<char>>::empty()) =~= Seq::<char>::empty());
        assert(m.push(n)[0] == n);
        assert(names_tail_text(m.push(n)) =~= seq!['.'] + n);
        assert(names_tail_text(m) =~= Seq::<char>::empty());
        assert(names_tail_text(m) + seq!['.'] + n =~= seq!['.'] + n);
    } else {
        assert(m.push(n).drop_first() =~= m.drop_first().push(n));
        lemma_names_tail_push(m.drop_first(), n);
        assert(names_tail_text(m.push(n)) =~= names_tail_text(m) + seq!['.'] + n);
    }
}

proof fn lemma_names_push(m: Seq<Seq<char>>, n: Seq<char>)
    requires
        m.len() > 0,
    ensures
        names_text(m.push(n)) == names_text(m) + seq!['.'] + n,
{
    assert(m.push(n).drop_first() =~= m.drop_first().push(n));
    lemma_names_tail_push(m.drop_first(), n);
    assert(names_text(m.push(n)) =~= names_text(m) + seq!['.'] + n);
}

proof fn lemma_entries_tail_push(l: Seq<(Seq<char>, ExpressionView)>, kv: (Seq<char>, ExpressionView))
    ensures
        entries_tail_text(l.push(kv)) == entries_tail_text(l) + seq![',', ' '] + entry_text(kv),
    decreases l.len(),
{
    if l.len() == 0 {
        assert(l.push(kv).drop_first() =~= Seq::<(Seq<char>, ExpressionView)>::empty());
        assert(entries_tail_text(Seq::<(Seq<char>, ExpressionView)>::empty()) =~= Seq::<char>::empty());
        assert(l.push(kv)[0] == kv);
        assert(entries_tail_text(l.push(kv)) =~= seq![',', ' '] + entry_text(kv));
        assert(entries_tail_text(l) =~= Seq::<char>::empty());
        assert(entries_tail_text(l) + seq![',', ' '] + entry_text(kv) =~= seq![',', ' ']
            + entry_text(kv));
    } else {
        assert(l.push(kv).drop_first() =~= l.drop_first().push(kv));
        lemma_entries_tail_push(l.drop_first(), kv);
        assert(entries_tail_text(l.push(kv)) =~= entries_tail_text(l) + seq![',', ' '] + entry_text(
            kv,
        ));
    }
}

proof fn lemma_entries_push(l: Seq<(Seq<char>, ExpressionView)>, kv: (Seq<char>, ExpressionView))
    requires
        l.len() > 0,
    ensures
        entries_text(l.push(kv)) == entries_text(l) + seq![',', ' '] + entry_text(kv),
{
    assert(l.push(kv).drop_first() =~= l.drop_first().push(kv));
    lemma_entries_tail_push(l.drop_first(), kv);
    assert(entries_text(l.push(kv)) =~= entries_text(l) + seq![',', ' '] + entry_text(kv));
}

fn push_chars(out: &mut String, t: &str)
    ensures
        final(out)@ == old(out)@ + t@,
{
    let cs = crate::to_chars(t);
    let mut i: usize = 0;
    while i < cs.len()
        invariant
            i <= cs@.len(),
            cs@ == t@,
            out@ == old(out)@ + cs@.subrange(0, i as int),
        decreases cs@.len() - i,
    {
        push_char(out, cs[i]);
        assert(cs@.subrange(0, i + 1) =~= cs@.subrange(0, i as int).push(cs@[i as int]));
        assert(out@ =~= old(out)@ + cs@.subrange(0, i + 1));
        i = i + 1;
    }
    assert(cs@.subrange(0, cs@.len() as int) =~= cs@);
}

fn push_one(out: &mut String, c: char)
    ensures
        final(out)@ == old(out)@ + seq![c],
{
    push_char(out, c);
    assert(old(out)@.push(c) =~= old(out)@ + seq![c]);
}

fn write_reference(out: &mut String, r: &Reference)
    ensures
        final(out)@ == old(out)@ + reference_text(r@),
{
    match r {
        Reference::Name(n) => push_chars(out, n.value.as_str()),
        Reference::Super => push_chars(out, "super"),
        Reference::Land => push_chars(out, "land"),
    }
}

fn write_path(out: &mut String, p: &ReferencePath)
    ensures
        final(out)@ == old(out)@ + path_text(p@),
{
    let ghost start = out@;
    let n = p.sequence.len();
    if n == 0 {
        assert(path_text(p@) =~= Seq::<char>::empty());
        assert(out@ =~= start + path_text(p@));
        return;
    }
    write_reference(out, &p.sequence[0]);
    assert(p@.subrange(0, 1).drop_first() =~= Seq::<ReferenceView>::empty());
    assert(path_text(p@.subrange(0, 1)) =~= reference_text(p@[0]));
    let mut i: usize = 1;
    while i < n
        invariant
            1 <= i <= n,
            n == p@.len(),
            out@ == start + path_text(p@.subrange(0, i as int)),
        decreases n - i,
    {
        push_one(out, ':');
        push_one(out, ':');
        write_reference(out, &p.sequence[i]);
        proof {
            assert(p@.subrange(0, i + 1) =~= p@.subrange(0, i as int).push(p@[i as int]));
            lemma_path_push(p@.subrange(0, i as int), p@[i as int]);
            assert(out@ =~= start + path_text(p@.subrange(0, i + 1)));
        }
        i = i + 1;
    }
    assert(p@.subrange(0, n as int) =~= p@);
}

fn write_names(out: &mut String, m: &Vec<NameIdentifier>)
    ensures
        final(out)@ == old(out)@ + names_text(names_view(m@)),
{
    let ghost start = out@;
    let ghost mv = names_view(m@);
    let n = m.len();
    if n == 0 {
        assert(names_text(mv) =~= Seq::<char>::empty());
        assert(out@ =~= start + names_text(mv));
        return;
    }
    push_chars(out, m[0].value.as_str());
    assert(mv.subrange(0, 1).drop_first() =~= Seq::<Seq<char>>::empty());
    assert(names_text(mv.subrange(0, 1)) =~= mv[0]);
    let mut i: usize = 1;
    while i < n
        invariant
            1 <= i <= n,
            n == m@.len(),
            mv == names_view(m@),
            out@ == start + names_text(mv.subrange(0, i as int)),
        decreases n - i,
    {
        push_one(out, '.');
        push_chars(out, m[i].value.as_str());
        proof {
            assert(mv.subrange(0, i + 1) =~= mv.subrange(0, i as int).push(mv[i as int]));
            lemma_names_push(mv.subrange(0, i as int), mv[i as int]);
            assert(out@ =~= start + names_text(mv.subrange(0, i + 1)));
        }
        i = i + 1;
    }
    assert(mv.subrange(0, n as int) =~= mv);
}

fn write_expression(out: &mut String, e: &Expression)
    ensures
        final(out)@ == old(out)@ + expression_text(e@),
{
    match e {
        Expression::Literal(Literal::Boolean(b)) => {
            if *b {
                push_chars(out, "true");
            } else {
                push_chars(out, "false");
            }
        },
        Expression::Literal(Literal::String(t)) => {
            push_one(out, '"');
            push_chars(out, t.as_str());
            push_one(out, '"');
            assert(out@ =~= old(out)@ + expression_text(e@));
        },
        Expression::Literal(Literal::Number(Number::Integer(t))) => push_chars(out, t.as_str()),
        Expression::Literal(Literal::Number(Number::FloatingPoint(t))) => push_chars(
            out,
            t.as_str(),
        ),
        Expression::Reference(p) => write_path(out, p),
        Expression::Object(o) => {
            write_path(out, &o.object);
            match &o.member_path {
                Some(m) => {
                    push_one(out, '.');
                    write_names(out, m);
                    assert(out@ =~= old(out)@ + expression_text(e@));
                },
                None => {
                    assert(out@ =~= old(out)@ + expression_text(e@));
                },
            }
        },
    }
}

fn write_entry(out: &mut String, k: &NameIdentifier, v: &Expression)
    ensures
        final(out)@ == old(out)@ + entry_text((k@, v@)),
{
    push_chars(out, k.value.as_str());
    push_one(out, ' ');
    push_one(out, '=');
    push_one(out, ' ');
    write_expression(out, v);
    assert(out@ =~= old(out)@ + entry_text((k@, v@)));
}

impl ResourceBody {
    /// The body written as source text, `{ k = v, ... }`, its entries in the
    /// order they were first set.
    pub fn to_source(&self) -> (r: String)
        ensures
            r@ == body_text(self.entry_views()),
    {
        let mut out = String::new();
        push_one(&mut out, '{');
        push_one(&mut out, ' ');
        let ghost l = self.entry_views();
        let n = self.entry_count();
        let mut i: usize = 0;
        while i < n
            invariant
                i <= n,
                n == l.len(),
                l == self.entry_views(),
                out@ == seq!['{', ' '] + entries_text(l.subrange(0, i as int)),
            decreases n - i,
        {
            let (k, v) = self.entry_at(i);
            if i > 0 {
                push_one(&mut out, ',');
                push_one(&mut out, ' ');
            }
            write_entry(&mut out, k, v);
            proof {
                assert(l.subrange(0, i + 1) =~= l.subrange(0, i as int).push(l[i as int]));
                if i > 0 {
                    lemma_entries_push(l.subrange(0, i as int), l[i as int]);
                } else {
                    assert(l.subrange(0, 1).drop_first() =~= Seq::<(Seq<char>, ExpressionView)>::empty());
                    assert(entries_text(l.subrange(0, 1)) =~= entry_text(l[0]));
                    assert(entries_text(l.subrange(0, 0)) =~= Seq::<char>::empty());
                }
                assert(out@ =~= seq!['{', ' '] + entries_text(l.subrange(0, i + 1)));
            }
            i = i + 1;
        }
        push_one(&mut out, ' ');
        push_one(&mut out, '}');
        assert(l.subrange(0, n as int) =~= l);
        assert(out@ =~= body_text(l));
        out
    }
}

} // verus!
