use vstd::prelude::*;

use crate::body::{spec_code_block, spec_resource_body_option, spec_statement_termination};
use crate::lexical::{end_of, has_char, has_tag, in_class, lemma_run_end, ws_end, CharClass};
use crate::statements::{
    lemma_statement_end, spec_statement, spec_syntax_tree, statements_from, ParseOptions,
};
use crate::source::{body_text, lemma_body_round_trip};
use crate::syntax_tree::{ResourceBody, StatementView};

verus! {

/// `b` splits `s` into a program of the statements `t`: leading whitespace up to
/// `b[0]`, then the `k`-th statement from `b[k]` to `b[k + 1]`, then only
/// whitespace after the last boundary.
pub open spec fn reads_as(s: Seq<char>, o: ParseOptions, b: Seq<int>, t: Seq<StatementView>) -> bool {
    &&& b.len() == t.len() + 1
    &&& b[0] == ws_end(s, 0)
    &&& ws_end(s, b.last()) == s.len()
    &&& forall|k: int| 0 <= k < t.len() ==> spec_statement(s, b[k], o) == Some((t[k], b[k + 1]))
}

/// Where the statements read from `i` on begin and end.
pub open spec fn statement_bounds(s: Seq<char>, i: int, o: ParseOptions) -> Seq<int>
    decreases s.len() - i,
{
    if 0 <= i <= s.len() {
        match spec_statement(s, i, o) {
            Some((_, e)) => {
                proof {
                    lemma_statement_end(s, i, o);
                }
                seq![i] + statement_bounds(s, e, o)
            },
            None => seq![i],
        }
    } else {
        seq![i]
    }
}

proof fn lemma_statement_bounds(s: Seq<char>, i: int, o: ParseOptions)
    requires
        0 <= i <= s.len(),
    ensures
        ({
            let b = statement_bounds(s, i, o);
            let (t, e) = statements_from(s, i, o);
            &&& b.len() == t.len() + 1
            &&& b[0] == i
            &&& b.last() == e
            &&& forall|k: int|
                0 <= k < t.len() ==> spec_statement(s, b[k], o) == Some((t[k], b[k + 1]))
        }),
    decreases s.len() - i,
{
    lemma_statement_end(s, i, o);
    if let Some((st, e)) = spec_statement(s, i, o) {
        lemma_statement_bounds(s, e, o);
        let b = statement_bounds(s, i, o);
        let rb = statement_bounds(s, e, o);
        let (t, f) = statements_from(s, i, o);
        let (rt, rf) = statements_from(s, e, o);
        assert(t =~= seq![st] + rt);
        assert(b =~= seq![i] + rb);
        assert forall|k: int| 0 <= k < t.len() implies spec_statement(s, b[k], o) == Some(
            (t[k], b[k + 1]),
        ) by {
            if k > 0 {
                assert(b[k] == rb[k - 1]);
                assert(b[k + 1] == rb[k]);
                assert(t[k] == rt[k - 1]);
            }
        }
    }
}

/// No statement starts where only whitespace is left.
proof fn lemma_no_statement_in_whitespace(s: Seq<char>, i: int, o: ParseOptions)
    requires
        0 <= i <= s.len(),
        ws_end(s, i) == s.len(),
    ensures
        spec_statement(s, i, o) is None,
{
    lemma_run_end(s, i, CharClass::Multispace);
    reveal_strlit("resource");
    reveal_strlit("provider");
    reveal_strlit("variable");
    if i < s.len() {
        assert(in_class(CharClass::Multispace, s[i]));
        assert(!has_tag(s, i, "resource"@)) by {
            if has_tag(s, i, "resource"@) {
                assert(s.subrange(i, i + 8)[0] == s[i]);
            }
        }
        assert(!has_tag(s, i, "provider"@)) by {
            if has_tag(s, i, "provider"@) {
                assert(s.subrange(i, i + 8)[0] == s[i]);
            }
        }
        assert(!has_tag(s, i, "variable"@)) by {
            if has_tag(s, i, "variable"@) {
                assert(s.subrange(i, i + 8)[0] == s[i]);
            }
        }
    }
}

/// A program that parses is read whole: the tree has one statement for each
/// declaration, the declarations follow one another without gaps, and only
/// whitespace stands before the first and after the last.
pub proof fn lemma_parsed_program_is_read_whole(s: Seq<char>, o: ParseOptions)
    requires
        spec_syntax_tree(s, o) is Some,
    ensures
        exists|b: Seq<int>| reads_as(s, o, b, spec_syntax_tree(s, o)->0),
{
    lemma_run_end(s, 0, CharClass::Multispace);
    lemma_statement_bounds(s, ws_end(s, 0), o);
    let b = statement_bounds(s, ws_end(s, 0), o);
    assert(reads_as(s, o, b, spec_syntax_tree(s, o)->0));
}

proof fn lemma_reads_from(s: Seq<char>, o: ParseOptions, b: Seq<int>, t: Seq<StatementView>, k: int)
    requires
        reads_as(s, o, b, t),
        0 <= k <= t.len(),
        0 <= b[k] <= s.len(),
    ensures
        statements_from(s, b[k], o) == (t.subrange(k, t.len() as int), b.last()),
    decreases t.len() - k,
{
    if k == t.len() {
        lemma_no_statement_in_whitespace(s, b[k], o);
        assert(t.subrange(k, t.len() as int) =~= seq![]);
    } else {
        lemma_statement_end(s, b[k], o);
        lemma_reads_from(s, o, b, t, k + 1);
        assert(t.subrange(k, t.len() as int) =~= seq![t[k]] + t.subrange(k + 1, t.len() as int));
    }
}

/// Conversely, text that splits into whitespace and declarations one after
/// another parses, to a tree of exactly those declarations.
pub proof fn lemma_program_of_declarations_parses(
    s: Seq<char>,
    o: ParseOptions,
    b: Seq<int>,
    t: Seq<StatementView>,
)
    requires
        reads_as(s, o, b, t),
    ensures
        spec_syntax_tree(s, o) == Some(t),
{
    lemma_run_end(s, 0, CharClass::Multispace);
    assert forall|k: int| 0 <= k <= t.len() implies 0 <= #[trigger] b[k] <= s.len() by {
        lemma_bound_in_range(s, o, b, t, k);
    }
    lemma_reads_from(s, o, b, t, 0);
    assert(t.subrange(0, t.len() as int) =~= t);
}

proof fn lemma_bound_in_range(s: Seq<char>, o: ParseOptions, b: Seq<int>, t: Seq<StatementView>, k: int)
    requires
        reads_as(s, o, b, t),
        0 <= k <= t.len(),
    ensures
        0 <= b[k] <= s.len(),
    decreases k,
{
    if k == 0 {
        lemma_run_end(s, 0, CharClass::Multispace);
    } else {
        lemma_bound_in_range(s, o, b, t, k - 1);
        lemma_statement_end(s, b[k - 1], o);
    }
}

/// A declaration ends with `;` or `}`, and then only whitespace.
proof fn lemma_statement_closes(s: Seq<char>, i: int, o: ParseOptions)
    requires
        0 <= i <= s.len(),
        spec_statement(s, i, o) is Some,
    ensures
        exists|j: int|
            0 < j <= s.len() && (s[j - 1] == ';' || s[j - 1] == '}') && ws_end(s, j) == end_of(spec_statement(s, i, o)),
{
    lemma_statement_end(s, i, o);
    let e = end_of(spec_statement(s, i, o));
    let g = choose|g: int|
        0 <= g <= s.len() && spec_resource_body_option(s, g) is Some && end_of(spec_resource_body_option(s, g)) == e;
    lemma_body_closes(s, g);
}

proof fn lemma_body_closes(s: Seq<char>, g: int)
    requires
        0 <= g <= s.len(),
        spec_resource_body_option(s, g) is Some,
    ensures
        exists|j: int|
            0 < j <= s.len() && (s[j - 1] == ';' || s[j - 1] == '}') && ws_end(s, j)
                == end_of(spec_resource_body_option(s, g)),
{
    lemma_run_end(s, g, CharClass::Multispace);
    let a = ws_end(s, g);
    if spec_statement_termination(s, g) is Some {
        assert(has_char(s, a, ';'));
        assert(ws_end(s, a + 1) == end_of(spec_resource_body_option(s, g)));
    } else {
        let (m, c) = crate::body::spec_key_value_pairs(s, ws_end(s, a + 1));
        let d = ws_end(s, c);
        assert(has_char(s, d, '}'));
        assert(ws_end(s, d + 1) == end_of(spec_resource_body_option(s, g)));
    }
}

/// Nothing stray may follow the last declaration: when a program parses and
/// does not end in whitespace, its last character closes a declaration.
pub proof fn lemma_no_trailing_input(s: Seq<char>, o: ParseOptions)
    requires
        spec_syntax_tree(s, o) is Some,
        s.len() > 0,
        !in_class(CharClass::Multispace, s.last()),
    ensures
        s.last() == ';' || s.last() == '}',
{
    lemma_parsed_program_is_read_whole(s, o);
    let t = spec_syntax_tree(s, o)->0;
    let b = choose|b: Seq<int>| reads_as(s, o, b, t);
    let n = t.len() as int;
    lemma_bound_in_range(s, o, b, t, n);
    lemma_run_end(s, b[n], CharClass::Multispace);
    assert(b[n] == s.len());
    if n == 0 {
        lemma_run_end(s, 0, CharClass::Multispace);
        assert(false);
    } else {
        lemma_bound_in_range(s, o, b, t, n - 1);
        lemma_statement_closes(s, b[n - 1], o);
        let j = choose|j: int|
            0 < j <= s.len() && (s[j - 1] == ';' || s[j - 1] == '}') && ws_end(s, j)
                == end_of(spec_statement(s, b[n - 1], o));
        lemma_run_end(s, j, CharClass::Multispace);
        assert(j == s.len());
    }
}

/// A body that was read, written out again by `ResourceBody::to_source`, reads
/// back as the same mapping.
pub proof fn lemma_source_text_round_trip(s: Seq<char>, i: int, b: ResourceBody)
    requires
        0 <= i <= s.len(),
        b.wf(),
        match spec_code_block(s, i) {
            Some((m, _)) => b@ == m,
            None => false,
        },
    ensures
        spec_code_block(body_text(b.entry_views()), 0) == Some(
            (b@, body_text(b.entry_views()).len() as int),
        ),
{
    lemma_body_round_trip(s, i, b.entry_views());
}

} // verus!
