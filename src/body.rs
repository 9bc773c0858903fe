use vstd::prelude::*;

use crate::lexical::{
    agrees, agrees_end, at_char, has_char, lemma_run_end, name_identifier, run_end, scan,
    skip_ws, spec_name_identifier, ws_end, CharClass,
};
use crate::paths::{expression, lemma_expression_end, spec_expression};
use crate::syntax_tree::{
    body_view, body_wf, map_of, Expression, ExpressionView, NameIdentifier, ResourceBody,
};

verus! {

/// Optional whitespace, `;`, optional whitespace: a declaration without a body.
pub open spec fn spec_statement_termination(s: Seq<char>, i: int) -> Option<int> {
    let j = ws_end(s, i);
    if has_char(s, j, ';') {
        Some(ws_end(s, j + 1))
    } else {
        None
    }
}

pub fn statement_termination(s: &[char], pos: usize) -> (r: Option<usize>)
    requires
        pos <= s@.len(),
    ensures
        agrees_end(r, spec_statement_termination(s@, pos as int)),
{
    let j = skip_ws(s, pos);
    proof {
        lemma_run_end(s@, pos as int, CharClass::Multispace);
    }
    if at_char(s, j, ';') {
        Some(skip_ws(s, j + 1))
    } else {
        None
    }
}

/// `key = value`, with optional whitespace around `=`.
pub open spec fn spec_entry(s: Seq<char>, i: int) -> Option<((Seq<char>, ExpressionView), int)> {
    match spec_name_identifier(s, i) {
        Some((k, e)) => {
            let j = ws_end(s, e);
            if has_char(s, j, '=') {
                match spec_expression(s, ws_end(s, j + 1)) {
                    Some((v, f)) => Some(((k, v), f)),
                    None => None,
                }
            } else {
                None
            }
        },
        None => None,
    }
}

pub proof fn lemma_entry_end(s: Seq<char>, i: int)
    requires
        0 <= i <= s.len(),
    ensures
        spec_entry(s, i) matches Some((_, e)) ==> i < e <= s.len(),
{
    crate::paths::lemma_name_end(s, i);
    if let Some((_, e)) = spec_name_identifier(s, i) {
        lemma_run_end(s, e, CharClass::Multispace);
        let j = ws_end(s, e);
        if has_char(s, j, '=') {
            lemma_run_end(s, j + 1, CharClass::Multispace);
            lemma_expression_end(s, ws_end(s, j + 1));
        }
    }
}

fn entry(s: &[char], pos: usize) -> (r: Option<((NameIdentifier, Expression), usize)>)
    requires
        pos <= s@.len(),
    ensures
        agrees(r, spec_entry(s@, pos as int)),
{
    let (k, e) = match name_identifier(s, pos) {
        Some(p) => p,
        None => return None,
    };
    proof {
        crate::paths::lemma_name_end(s@, pos as int);
        lemma_run_end(s@, e as int, CharClass::Multispace);
    }
    let j = skip_ws(s, e);
    if !at_char(s, j, '=') {
        return None;
    }
    let b = skip_ws(s, j + 1);
    proof {
        lemma_run_end(s@, j + 1, CharClass::Multispace);
    }
    match expression(s, b) {
        Some((v, f)) => Some(((k, v), f)),
        None => None,
    }
}

/// Spaces, `,`, spaces.
pub open spec fn spec_comma_separator(s: Seq<char>, i: int) -> Option<int> {
    let j = run_end(s, i, CharClass::Space);
    if has_char(s, j, ',') {
        Some(run_end(s, j + 1, CharClass::Space))
    } else {
        None
    }
}

/// `\n` or `\r\n`.
pub open spec fn spec_line_ending(s: Seq<char>, i: int) -> Option<int> {
    if has_char(s, i, '\n') {
        Some(i + 1)
    } else if has_char(s, i, '\r') && has_char(s, i + 1, '\n') {
        Some(i + 2)
    } else {
        None
    }
}

/// Spaces, a line ending, spaces.
pub open spec fn spec_line_break(s: Seq<char>, i: int) -> Option<int> {
    let j = run_end(s, i, CharClass::Space);
    match spec_line_ending(s, j) {
        Some(k) => Some(run_end(s, k, CharClass::Space)),
        None => None,
    }
}

pub proof fn lemma_line_break_end(s: Seq<char>, i: int)
    requires
        0 <= i <= s.len(),
    ensures
        spec_line_break(s, i) matches Some(e) ==> i < e <= s.len(),
        spec_comma_separator(s, i) matches Some(e) ==> i < e <= s.len(),
{
    lemma_run_end(s, i, CharClass::Space);
    let j = run_end(s, i, CharClass::Space);
    if let Some(k) = spec_line_ending(s, j) {
        lemma_run_end(s, k, CharClass::Space);
    }
    if has_char(s, j, ',') {
        lemma_run_end(s, j + 1, CharClass::Space);
    }
}

/// Where a run of line breaks that starts at `i` ends.
pub open spec fn line_breaks_end(s: Seq<char>, i: int) -> int
    decreases s.len() - i,
{
    if 0 <= i <= s.len() {
        match spec_line_break(s, i) {
            Some(k) => {
                proof {
                    lemma_line_break_end(s, i);
                }
                line_breaks_end(s, k)
            },
            None => i,
        }
    } else {
        i
    }
}

pub proof fn lemma_line_breaks_end(s: Seq<char>, i: int)
    requires
        0 <= i <= s.len(),
    ensures
        i <= line_breaks_end(s, i) <= s.len(),
    decreases s.len() - i,
{
    lemma_line_break_end(s, i);
    if let Some(k) = spec_line_break(s, i) {
        lemma_line_breaks_end(s, k);
    }
}

/// A comma, or one or more line breaks.
pub open spec fn spec_entry_separator(s: Seq<char>, i: int) -> Option<int> {
    if spec_comma_separator(s, i) is Some {
        spec_comma_separator(s, i)
    } else {
        match spec_line_break(s, i) {
            Some(k) => Some(line_breaks_end(s, k)),
            None => None,
        }
    }
}

pub proof fn lemma_entry_separator_end(s: Seq<char>, i: int)
    requires
        0 <= i <= s.len(),
    ensures
        spec_entry_separator(s, i) matches Some(e) ==> i < e <= s.len(),
{
    lemma_line_break_end(s, i);
    if let Some(k) = spec_line_break(s, i) {
        lemma_line_breaks_end(s, k);
    }
}

fn line_break(s: &[char], pos: usize) -> (r: Option<usize>)
    requires
        pos <= s@.len(),
    ensures
        agrees_end(r, spec_line_break(s@, pos as int)),
{
    let len = s.len();
    let j = scan(s, pos, CharClass::Space);
    proof {
        lemma_run_end(s@, pos as int, CharClass::Space);
    }
    let k = if at_char(s, j, '\n') {
        j + 1
    } else if at_char(s, j, '\r') && j + 1 < len && s[j + 1] == '\n' {
        j + 2
    } else {
        return None;
    };
    Some(scan(s, k, CharClass::Space))
}

fn entry_separator(s: &[char], pos: usize) -> (r: Option<usize>)
    requires
        pos <= s@.len(),
    ensures
        agrees_end(r, spec_entry_separator(s@, pos as int)),
{
    let j = scan(s, pos, CharClass::Space);
    proof {
        lemma_run_end(s@, pos as int, CharClass::Space);
    }
    if at_char(s, j, ',') {
        return Some(scan(s, j + 1, CharClass::Space));
    }
    let mut i = match line_break(s, pos) {
        Some(k) => k,
        None => return None,
    };
    proof {
        lemma_line_break_end(s@, pos as int);
    }
    loop
        invariant
            i <= s@.len(),
            spec_entry_separator(s@, pos as int) == Some(line_breaks_end(s@, i as int)),
        ensures
            spec_entry_separator(s@, pos as int) == Some(i as int),
        decreases s@.len() - i,
    {
        proof {
            lemma_line_break_end(s@, i as int);
        }
        match line_break(s, i) {
            Some(k) => {
                i = k;
            },
            None => {
                break ;
            },
        }
    }
    Some(i)
}

/// The entries that follow a list's first one, each after a separator.
pub open spec fn entries_rest(s: Seq<char>, i: int) -> (Seq<(Seq<char>, ExpressionView)>, int)
    decreases s.len() - i,
{
    if 0 <= i <= s.len() {
        match spec_entry_separator(s, i) {
            Some(j) => match spec_entry(s, j) {
                Some((kv, e)) => {
                    proof {
                        lemma_entry_separator_end(s, i);
                        lemma_entry_end(s, j);
                    }
                    let (rest, f) = entries_rest(s, e);
                    (seq![kv] + rest, f)
                },
                None => (seq![], i),
            },
            None => (seq![], i),
        }
    } else {
        (seq![], i)
    }
}

/// Zero or more entries, separated by commas or line breaks.
pub open spec fn spec_entry_list(s: Seq<char>, i: int) -> (Seq<(Seq<char>, ExpressionView)>, int) {
    match spec_entry(s, i) {
        Some((kv, e)) => {
            let (rest, f) = entries_rest(s, e);
            (seq![kv] + rest, f)
        },
        None => (seq![], i),
    }
}

/// The entries as a mapping: a repeated key keeps its last value.
pub open spec fn spec_key_value_pairs(s: Seq<char>, i: int) -> (Map<Seq<char>, ExpressionView>, int) {
    (map_of(spec_entry_list(s, i).0), spec_entry_list(s, i).1)
}

pub fn key_value_pairs(s: &[char], pos: usize) -> (r: (ResourceBody, usize))
    requires
        pos <= s@.len(),
    ensures
        r.0.wf(),
        spec_key_value_pairs(s@, pos as int) == (r.0@, r.1 as int),
{
    let mut body = ResourceBody::new();
    let ghost mut done: Seq<(Seq<char>, ExpressionView)> = seq![];
    let (first, e) = match entry(s, pos) {
        Some(p) => p,
        None => return (body, pos),
    };
    proof {
        lemma_entry_end(s@, pos as int);
        done = seq![(first.0@, first.1@)];
        assert(done.drop_last() =~= seq![]);
    }
    body.insert(first.0, first.1);
    assert(map_of(done) == map_of(seq![]).insert(done[0].0, done[0].1));
    assert(body@ == map_of(done));
    let mut i = e;
    loop
        invariant
            i <= s@.len(),
            body.wf(),
            body@ == map_of(done),
            spec_entry_list(s@, pos as int) == (done + entries_rest(s@, i as int).0, entries_rest(
                s@,
                i as int,
            ).1),
        ensures
            body.wf(),
            body@ == map_of(done),
            spec_entry_list(s@, pos as int) == (done, i as int),
        decreases s@.len() - i,
    {
        proof {
            lemma_entry_separator_end(s@, i as int);
        }
        let j = match entry_separator(s, i) {
            Some(j) => j,
            None => {
                assert(done + entries_rest(s@, i as int).0 =~= done);
                break ;
            },
        };
        match entry(s, j) {
            Some((kv, e)) => {
                proof {
                    lemma_entry_end(s@, j as int);
                    let item = (kv.0@, kv.1@);
                    assert(done + entries_rest(s@, i as int).0 =~= done.push(item) + entries_rest(
                        s@,
                        e as int,
                    ).0);
                    assert(done.push(item).drop_last() =~= done);
                    done = done.push(item);
                }
                body.insert(kv.0, kv.1);
                i = e;
            },
            None => {
                assert(done + entries_rest(s@, i as int).0 =~= done);
                break ;
            },
        }
    }
    (body, i)
}

/// A body: optional whitespace, `{`, the entries, `}`, optional whitespace,
/// with whitespace allowed inside the braces too.
pub open spec fn spec_code_block(s: Seq<char>, i: int) -> Option<(Map<Seq<char>, ExpressionView>, int)> {
    let a = ws_end(s, i);
    if has_char(s, a, '{') {
        let (m, c) = spec_key_value_pairs(s, ws_end(s, a + 1));
        let d = ws_end(s, c);
        if has_char(s, d, '}') {
            Some((m, ws_end(s, d + 1)))
        } else {
            None
        }
    } else {
        None
    }
}

pub proof fn lemma_entry_list_end(s: Seq<char>, i: int)
    requires
        0 <= i <= s.len(),
    ensures
        i <= spec_entry_list(s, i).1 <= s.len(),
{
    lemma_entry_end(s, i);
    if let Some((_, e)) = spec_entry(s, i) {
        lemma_entries_rest_end(s, e);
    }
}

pub proof fn lemma_entries_rest_end(s: Seq<char>, i: int)
    requires
        0 <= i <= s.len(),
    ensures
        i <= entries_rest(s, i).1 <= s.len(),
    decreases s.len() - i,
{
    lemma_entry_separator_end(s, i);
    if let Some(j) = spec_entry_separator(s, i) {
        lemma_entry_end(s, j);
        if let Some((_, e)) = spec_entry(s, j) {
            lemma_entries_rest_end(s, e);
        }
    }
}

pub fn code_block(s: &[char], pos: usize) -> (r: Option<(ResourceBody, usize)>)
    requires
        pos <= s@.len(),
    ensures
        agrees(r, spec_code_block(s@, pos as int)),
        r matches Some((b, _)) ==> b.wf(),
{
    let a = skip_ws(s, pos);
    proof {
        lemma_run_end(s@, pos as int, CharClass::Multispace);
    }
    if !at_char(s, a, '{') {
        return None;
    }
    let b = skip_ws(s, a + 1);
    proof {
        lemma_run_end(s@, a + 1, CharClass::Multispace);
        lemma_entry_list_end(s@, b as int);
    }
    let (m, c) = key_value_pairs(s, b);
    let d = skip_ws(s, c);
    proof {
        lemma_run_end(s@, c as int, CharClass::Multispace);
    }
    if !at_char(s, d, '}') {
        return None;
    }
    Some((m, skip_ws(s, d + 1)))
}

/// `;` for no body, or a braced body.
pub open spec fn spec_resource_body_option(s: Seq<char>, i: int) -> Option<
    (Option<Map<Seq<char>, ExpressionView>>, int),
> {
    match spec_statement_termination(s, i) {
        Some(e) => Some((None, e)),
        None => match spec_code_block(s, i) {
            Some((m, e)) => Some((Some(m), e)),
            None => None,
        },
    }
}

pub fn resource_body_option(s: &[char], pos: usize) -> (r: Option<(Option<ResourceBody>, usize)>)
    requires
        pos <= s@.len(),
    ensures
        match r {
            Some((b, e)) => spec_resource_body_option(s@, pos as int) == Some((body_view(b), e as int))
                && body_wf(b),
            None => spec_resource_body_option(s@, pos as int) is None,
        },
{
    match statement_termination(s, pos) {
        Some(e) => Some((None, e)),
        None => match code_block(s, pos) {
            Some((m, e)) => Some((Some(m), e)),
            None => None,
        },
    }
}

pub proof fn lemma_body_option_end(s: Seq<char>, i: int)
    requires
        0 <= i <= s.len(),
    ensures
        spec_resource_body_option(s, i) matches Some((_, e)) ==> i < e <= s.len(),
{
    lemma_run_end(s, i, CharClass::Multispace);
    let a = ws_end(s, i);
    if a < s.len() {
        lemma_run_end(s, a + 1, CharClass::Multispace);
        lemma_entry_list_end(s, ws_end(s, a + 1));
        let c = spec_entry_list(s, ws_end(s, a + 1)).1;
        lemma_run_end(s, c, CharClass::Multispace);
        let d = ws_end(s, c);
        if d < s.len() {
            lemma_run_end(s, d + 1, CharClass::Multispace);
        }
    }
}

} // verus!
