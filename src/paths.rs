use vstd::prelude::*;

use crate::lexical::{
    agrees, at_char, at_tag, has_char, has_tag, lemma_run_end, literal_expression,
    name_identifier, spec_literal_expression, spec_name_identifier, CharClass,
};
use crate::syntax_tree::{
    names_view, references_view, Expression, ExpressionView, NameIdentifier, ObjectPath,
    ObjectPathView, Reference, ReferencePath, ReferenceView,
};

verus! {

pub open spec fn spec_reference_from_name(s: Seq<char>, i: int) -> Option<(ReferenceView, int)> {
    match spec_name_identifier(s, i) {
        Some((n, e)) => Some((ReferenceView::Name(n), e)),
        None => None,
    }
}

pub fn reference_from_name(s: &[char], pos: usize) -> (r: Option<(Reference, usize)>)
    requires
        pos <= s@.len(),
    ensures
        agrees(r, spec_reference_from_name(s@, pos as int)),
{
    match name_identifier(s, pos) {
        Some((n, e)) => Some((Reference::Name(n), e)),
        None => None,
    }
}

/// A path segment: `super` and `land` are reserved and always read as such,
/// any other name is a `Name`.
pub open spec fn spec_reference(s: Seq<char>, i: int) -> Option<(ReferenceView, int)> {
    if has_tag(s, i, "super"@) {
        Some((ReferenceView::Super, i + "super"@.len()))
    } else if has_tag(s, i, "land"@) {
        Some((ReferenceView::Land, i + "land"@.len()))
    } else {
        spec_reference_from_name(s, i)
    }
}

pub proof fn lemma_name_end(s: Seq<char>, i: int)
    requires
        0 <= i <= s.len(),
    ensures
        spec_name_identifier(s, i) matches Some((_, e)) ==> i < e <= s.len(),
{
    if i < s.len() {
        lemma_run_end(s, i + 1, CharClass::NameChar);
    }
}

pub proof fn lemma_reference_end(s: Seq<char>, i: int)
    requires
        0 <= i <= s.len(),
    ensures
        spec_reference(s, i) matches Some((_, e)) ==> i < e <= s.len(),
{
    reveal_strlit("super");
    reveal_strlit("land");
    lemma_name_end(s, i);
}

pub fn reference(s: &[char], pos: usize) -> (r: Option<(Reference, usize)>)
    requires
        pos <= s@.len(),
    ensures
        agrees(r, spec_reference(s@, pos as int)),
{
    let sup = "super";
    let land = "land";
    if at_tag(s, pos, sup) {
        Some((Reference::Super, pos + sup.unicode_len()))
    } else if at_tag(s, pos, land) {
        Some((Reference::Land, pos + land.unicode_len()))
    } else {
        reference_from_name(s, pos)
    }
}

/// The segments that follow a path's first one, each after `::`.
pub open spec fn path_rest(s: Seq<char>, i: int) -> (Seq<ReferenceView>, int)
    decreases s.len() - i,
{
    if 0 <= i && has_char(s, i, ':') && has_char(s, i + 1, ':') {
        match spec_reference(s, i + 2) {
            Some((r, e)) => {
                proof {
                    lemma_reference_end(s, i + 2);
                }
                let (rest, f) = path_rest(s, e);
                (seq![r] + rest, f)
            },
            None => (seq![], i),
        }
    } else {
        (seq![], i)
    }
}

/// One or more references joined by `::`, with no space around it.
pub open spec fn spec_reference_path(s: Seq<char>, i: int) -> Option<(Seq<ReferenceView>, int)> {
    match spec_reference(s, i) {
        Some((r, e)) => {
            let (rest, f) = path_rest(s, e);
            Some((seq![r] + rest, f))
        },
        None => None,
    }
}

pub fn reference_path(s: &[char], pos: usize) -> (r: Option<(ReferencePath, usize)>)
    requires
        pos <= s@.len(),
    ensures
        agrees(r, spec_reference_path(s@, pos as int)),
{
    let (first, e) = match reference(s, pos) {
        Some(p) => p,
        None => return None,
    };
    proof {
        lemma_reference_end(s@, pos as int);
    }
    let mut sequence: Vec<Reference> = Vec::new();
    sequence.push(first);
    let mut i = e;
    let len = s.len();
    assert(references_view(sequence@) =~= seq![first@]);
    loop
        invariant
            len == s@.len(),
            i <= s@.len(),
            spec_reference_path(s@, pos as int) == Some(
                (references_view(sequence@) + path_rest(s@, i as int).0, path_rest(s@, i as int).1),
            ),
        ensures
            spec_reference_path(s@, pos as int) == Some((references_view(sequence@), i as int)),
        decreases s@.len() - i,
    {
        if at_char(s, i, ':') && at_char(s, i + 1, ':') {
            match reference(s, i + 2) {
                Some((r, e)) => {
                    proof {
                        lemma_reference_end(s@, i + 2);
                        assert(references_view(sequence@.push(r)) =~= references_view(
                            sequence@,
                        ).push(r@));
                        assert(references_view(sequence@) + path_rest(s@, i as int).0
                            =~= references_view(sequence@).push(r@) + path_rest(s@, e as int).0);
                    }
                    sequence.push(r);
                    i = e;
                },
                None => {
                    assert(references_view(sequence@) + path_rest(s@, i as int).0
                        =~= references_view(sequence@));
                    break ;
                },
            }
        } else {
            assert(references_view(sequence@) + path_rest(s@, i as int).0 =~= references_view(
                sequence@,
            ));
            break ;
        }
    }
    Some((ReferencePath { sequence }, i))
}

/// The names that follow a member list's first one, each after `.`.
pub open spec fn names_rest(s: Seq<char>, i: int) -> (Seq<Seq<char>>, int)
    decreases s.len() - i,
{
    if 0 <= i && has_char(s, i, '.') {
        match spec_name_identifier(s, i + 1) {
            Some((n, e)) => {
                proof {
                    lemma_name_end(s, i + 1);
                }
                let (rest, f) = names_rest(s, e);
                (seq![n] + rest, f)
            },
            None => (seq![], i),
        }
    } else {
        (seq![], i)
    }
}

/// Zero or more names joined by `.`.
pub open spec fn spec_member_list(s: Seq<char>, i: int) -> (Seq<Seq<char>>, int) {
    match spec_name_identifier(s, i) {
        Some((n, e)) => {
            let (rest, f) = names_rest(s, e);
            (seq![n] + rest, f)
        },
        None => (seq![], i),
    }
}

fn member_list(s: &[char], pos: usize) -> (r: (Vec<NameIdentifier>, usize))
    requires
        pos <= s@.len(),
    ensures
        spec_member_list(s@, pos as int) == (names_view(r.0@), r.1 as int),
{
    let mut names: Vec<NameIdentifier> = Vec::new();
    let (first, e) = match name_identifier(s, pos) {
        Some(p) => p,
        None => {
            assert(names_view(names@) =~= seq![]);
            return (names, pos);
        },
    };
    proof {
        lemma_name_end(s@, pos as int);
    }
    names.push(first);
    let mut i = e;
    let len = s.len();
    assert(names_view(names@) =~= seq![first@]);
    loop
        invariant
            len == s@.len(),
            i <= s@.len(),
            spec_member_list(s@, pos as int) == (
                names_view(names@) + names_rest(s@, i as int).0,
                names_rest(s@, i as int).1,
            ),
        ensures
            spec_member_list(s@, pos as int) == (names_view(names@), i as int),
        decreases s@.len() - i,
    {
        if at_char(s, i, '.') {
            match name_identifier(s, i + 1) {
                Some((n, e)) => {
                    proof {
                        lemma_name_end(s@, i + 1);
                        assert(names_view(names@.push(n)) =~= names_view(names@).push(n@));
                        assert(names_view(names@) + names_rest(s@, i as int).0 =~= names_view(
                            names@,
                        ).push(n@) + names_rest(s@, e as int).0);
                    }
                    names.push(n);
                    i = e;
                },
                None => {
                    assert(names_view(names@) + names_rest(s@, i as int).0 =~= names_view(names@));
                    break ;
                },
            }
        } else {
            assert(names_view(names@) + names_rest(s@, i as int).0 =~= names_view(names@));
            break ;
        }
    }
    (names, i)
}

/// A reference path, then, if a `.` follows at once, the member names after it
/// (possibly none).
pub open spec fn spec_object_path(s: Seq<char>, i: int) -> Option<(ObjectPathView, int)> {
    match spec_reference_path(s, i) {
        Some((p, e)) => if has_char(s, e, '.') {
            let (m, f) = spec_member_list(s, e + 1);
            Some((ObjectPathView { object: p, member_path: Some(m) }, f))
        } else {
            Some((ObjectPathView { object: p, member_path: None }, e))
        },
        None => None,
    }
}

pub fn object_path(s: &[char], pos: usize) -> (r: Option<(ObjectPath, usize)>)
    requires
        pos <= s@.len(),
    ensures
        agrees(r, spec_object_path(s@, pos as int)),
{
    match reference_path(s, pos) {
        Some((object, e)) => {
            if at_char(s, e, '.') {
                let (m, f) = member_list(s, e + 1);
                Some((ObjectPath { object, member_path: Some(m) }, f))
            } else {
                Some((ObjectPath { object, member_path: None }, e))
            }
        },
        None => None,
    }
}

pub open spec fn spec_object_path_expression(s: Seq<char>, i: int) -> Option<(ExpressionView, int)> {
    match spec_object_path(s, i) {
        Some((o, e)) => Some((ExpressionView::Object(o), e)),
        None => None,
    }
}

pub fn object_path_expression(s: &[char], pos: usize) -> (r: Option<(Expression, usize)>)
    requires
        pos <= s@.len(),
    ensures
        agrees(r, spec_object_path_expression(s@, pos as int)),
{
    match object_path(s, pos) {
        Some((o, e)) => Some((Expression::Object(o), e)),
        None => None,
    }
}

/// A literal if one stands here, else an object path.
pub open spec fn spec_expression(s: Seq<char>, i: int) -> Option<(ExpressionView, int)> {
    if spec_literal_expression(s, i) is Some {
        spec_literal_expression(s, i)
    } else {
        spec_object_path_expression(s, i)
    }
}

pub fn expression(s: &[char], pos: usize) -> (r: Option<(Expression, usize)>)
    requires
        pos <= s@.len(),
    ensures
        agrees(r, spec_expression(s@, pos as int)),
{
    let l = literal_expression(s, pos);
    if l.is_some() {
        return l;
    }
    object_path_expression(s, pos)
}

pub proof fn lemma_path_rest_end(s: Seq<char>, i: int)
    requires
        0 <= i <= s.len(),
    ensures
        i <= path_rest(s, i).1 <= s.len(),
    decreases s.len() - i,
{
    if has_char(s, i, ':') && has_char(s, i + 1, ':') {
        lemma_reference_end(s, i + 2);
        if let Some((_, e)) = spec_reference(s, i + 2) {
            lemma_path_rest_end(s, e);
        }
    }
}

pub proof fn lemma_names_rest_end(s: Seq<char>, i: int)
    requires
        0 <= i <= s.len(),
    ensures
        i <= names_rest(s, i).1 <= s.len(),
    decreases s.len() - i,
{
    if has_char(s, i, '.') {
        lemma_name_end(s, i + 1);
        if let Some((_, e)) = spec_name_identifier(s, i + 1) {
            lemma_names_rest_end(s, e);
        }
    }
}

/// An expression, when one is read, takes at least one character.
pub proof fn lemma_expression_end(s: Seq<char>, i: int)
    requires
        0 <= i <= s.len(),
    ensures
        spec_expression(s, i) matches Some((_, e)) ==> i < e <= s.len(),
{
    reveal_strlit("true");
    reveal_strlit("false");
    lemma_run_end(s, i, CharClass::Digit);
    if i + 1 <= s.len() {
        lemma_run_end(s, i + 1, CharClass::StringChar);
    }
    let d = crate::lexical::run_end(s, i, CharClass::Digit);
    if d + 1 <= s.len() {
        lemma_run_end(s, d + 1, CharClass::Digit);
    }
    lemma_reference_end(s, i);
    if let Some((_, e)) = spec_reference(s, i) {
        lemma_path_rest_end(s, e);
        if let Some((_, f)) = spec_reference_path(s, i) {
            if f + 1 <= s.len() {
                lemma_name_end(s, f + 1);
                if let Some((_, g)) = spec_name_identifier(s, f + 1) {
                    lemma_names_rest_end(s, g);
                }
            }
        }
    }
}

} // verus!
