use vstd::prelude::*;

use crate::body::{
    entries_rest, line_breaks_end, spec_code_block, spec_comma_separator, spec_entry,
    spec_entry_list, spec_entry_separator, spec_key_value_pairs, spec_line_break,
    spec_resource_body_option, spec_statement_termination,
};
use crate::lexical::{
    has_tag, lemma_run_end, run_end, spec_literal_expression, spec_name_identifier, ws_end,
    CharClass,
};
use crate::paths::{
    names_rest, path_rest, spec_expression, spec_member_list, spec_object_path, spec_reference,
    spec_reference_path,
};
use crate::statements::{
    historical_options, modifiers_rest, spec_path_modifiers, spec_resource_data_as_custom,
    spec_resource_data_as_provider, spec_resource_modifier_list, spec_tagged_value,
    spec_typed_resource,
};
use crate::syntax_tree::ResourceClass;

verus! {

/// `s1` and `s2` have the same length and the same characters from `i` on.
pub open spec fn same_from(s1: Seq<char>, s2: Seq<char>, i: int) -> bool {
    &&& s1.len() == s2.len()
    &&& forall|m: int| i <= m < s1.len() ==> s1[m] == s2[m]
}

proof fn frame_run(s1: Seq<char>, s2: Seq<char>, i: int, k: CharClass)
    requires
        0 <= i,
        same_from(s1, s2, i),
    ensures
        run_end(s1, i, k) == run_end(s2, i, k),
    decreases s1.len() - i,
{
    if i < s1.len() {
        frame_run(s1, s2, i + 1, k);
    }
}

proof fn frame_tag(s1: Seq<char>, s2: Seq<char>, i: int, t: Seq<char>)
    requires
        0 <= i,
        same_from(s1, s2, i),
    ensures
        has_tag(s1, i, t) == has_tag(s2, i, t),
{
    if i + t.len() <= s1.len() {
        assert(s1.subrange(i, i + t.len()) =~= s2.subrange(i, i + t.len()));
    }
}

proof fn frame_name(s1: Seq<char>, s2: Seq<char>, i: int)
    requires
        0 <= i,
        same_from(s1, s2, i),
    ensures
        spec_name_identifier(s1, i) == spec_name_identifier(s2, i),
{
    if i < s1.len() {
        frame_run(s1, s2, i + 1, CharClass::NameChar);
        lemma_run_end(s1, i + 1, CharClass::NameChar);
        let e = run_end(s1, i + 1, CharClass::NameChar);
        assert(s1.subrange(i, e) =~= s2.subrange(i, e));
    }
}

proof fn frame_reference(s1: Seq<char>, s2: Seq<char>, i: int)
    requires
        0 <= i,
        same_from(s1, s2, i),
    ensures
        spec_reference(s1, i) == spec_reference(s2, i),
{
    frame_tag(s1, s2, i, "super"@);
    frame_tag(s1, s2, i, "land"@);
    frame_name(s1, s2, i);
}

proof fn frame_path_rest(s1: Seq<char>, s2: Seq<char>, i: int)
    requires
        0 <= i <= s1.len(),
        same_from(s1, s2, i),
    ensures
        path_rest(s1, i) == path_rest(s2, i),
    decreases s1.len() - i,
{
    if i + 2 <= s1.len() {
        frame_reference(s1, s2, i + 2);
        crate::paths::lemma_reference_end(s1, i + 2);
        if let Some((_, e)) = spec_reference(s1, i + 2) {
            frame_path_rest(s1, s2, e);
        }
    }
}

proof fn frame_reference_path(s1: Seq<char>, s2: Seq<char>, i: int)
    requires
        0 <= i <= s1.len(),
        same_from(s1, s2, i),
    ensures
        spec_reference_path(s1, i) == spec_reference_path(s2, i),
{
    frame_reference(s1, s2, i);
    crate::paths::lemma_reference_end(s1, i);
    if let Some((_, e)) = spec_reference(s1, i) {
        frame_path_rest(s1, s2, e);
    }
}

proof fn frame_names_rest(s1: Seq<char>, s2: Seq<char>, i: int)
    requires
        0 <= i <= s1.len(),
        same_from(s1, s2, i),
    ensures
        names_rest(s1, i) == names_rest(s2, i),
    decreases s1.len() - i,
{
    if i + 1 <= s1.len() {
        frame_name(s1, s2, i + 1);
        crate::paths::lemma_name_end(s1, i + 1);
        if let Some((_, e)) = spec_name_identifier(s1, i + 1) {
            frame_names_rest(s1, s2, e);
        }
    }
}

proof fn frame_object_path(s1: Seq<char>, s2: Seq<char>, i: int)
    requires
        0 <= i <= s1.len(),
        same_from(s1, s2, i),
    ensures
        spec_object_path(s1, i) == spec_object_path(s2, i),
{
    frame_reference_path(s1, s2, i);
    crate::paths::lemma_reference_end(s1, i);
    if let Some((_, e0)) = spec_reference(s1, i) {
        crate::paths::lemma_path_rest_end(s1, e0);
    }
    if let Some((_, e)) = spec_reference_path(s1, i) {
        if e + 1 <= s1.len() {
            frame_name(s1, s2, e + 1);
            crate::paths::lemma_name_end(s1, e + 1);
            if let Some((_, f)) = spec_name_identifier(s1, e + 1) {
                frame_names_rest(s1, s2, f);
            }
            assert(spec_member_list(s1, e + 1) == spec_member_list(s2, e + 1));
        }
    }
}

proof fn frame_expression(s1: Seq<char>, s2: Seq<char>, i: int)
    requires
        0 <= i <= s1.len(),
        same_from(s1, s2, i),
    ensures
        spec_expression(s1, i) == spec_expression(s2, i),
{
    frame_tag(s1, s2, i, "true"@);
    frame_tag(s1, s2, i, "false"@);
    frame_run(s1, s2, i, CharClass::Digit);
    lemma_run_end(s1, i, CharClass::Digit);
    let d = run_end(s1, i, CharClass::Digit);
    assert(s1.subrange(i, d) =~= s2.subrange(i, d));
    if d + 1 <= s1.len() {
        frame_run(s1, s2, d + 1, CharClass::Digit);
        lemma_run_end(s1, d + 1, CharClass::Digit);
        let e = run_end(s1, d + 1, CharClass::Digit);
        assert(s1.subrange(i, e) =~= s2.subrange(i, e));
    }
    if i + 1 <= s1.len() {
        frame_run(s1, s2, i + 1, CharClass::StringChar);
        lemma_run_end(s1, i + 1, CharClass::StringChar);
        let e = run_end(s1, i + 1, CharClass::StringChar);
        assert(s1.subrange(i + 1, e) =~= s2.subrange(i + 1, e));
    }
    assert(spec_literal_expression(s1, i) == spec_literal_expression(s2, i));
    frame_object_path(s1, s2, i);
}

proof fn frame_ws(s1: Seq<char>, s2: Seq<char>, i: int)
    requires
        0 <= i <= s1.len(),
        same_from(s1, s2, i),
    ensures
        ws_end(s1, i) == ws_end(s2, i),
        i <= ws_end(s1, i) <= s1.len(),
{
    frame_run(s1, s2, i, CharClass::Multispace);
    lemma_run_end(s1, i, CharClass::Multispace);
}

proof fn frame_entry(s1: Seq<char>, s2: Seq<char>, i: int)
    requires
        0 <= i <= s1.len(),
        same_from(s1, s2, i),
    ensures
        spec_entry(s1, i) == spec_entry(s2, i),
{
    frame_name(s1, s2, i);
    crate::paths::lemma_name_end(s1, i);
    if let Some((_, e)) = spec_name_identifier(s1, i) {
        frame_ws(s1, s2, e);
        let j = ws_end(s1, e);
        if j + 1 <= s1.len() {
            frame_ws(s1, s2, j + 1);
            frame_expression(s1, s2, ws_end(s1, j + 1));
        }
    }
}

proof fn frame_line_break(s1: Seq<char>, s2: Seq<char>, i: int)
    requires
        0 <= i <= s1.len(),
        same_from(s1, s2, i),
    ensures
        spec_line_break(s1, i) == spec_line_break(s2, i),
        spec_comma_separator(s1, i) == spec_comma_separator(s2, i),
{
    frame_run(s1, s2, i, CharClass::Space);
    lemma_run_end(s1, i, CharClass::Space);
    let j = run_end(s1, i, CharClass::Space);
    if j + 1 <= s1.len() {
        frame_run(s1, s2, j + 1, CharClass::Space);
    }
    if j + 2 <= s1.len() {
        frame_run(s1, s2, j + 2, CharClass::Space);
    }
}

proof fn frame_line_breaks_end(s1: Seq<char>, s2: Seq<char>, i: int)
    requires
        0 <= i <= s1.len(),
        same_from(s1, s2, i),
    ensures
        line_breaks_end(s1, i) == line_breaks_end(s2, i),
    decreases s1.len() - i,
{
    frame_line_break(s1, s2, i);
    crate::body::lemma_line_break_end(s1, i);
    if let Some(k) = spec_line_break(s1, i) {
        frame_line_breaks_end(s1, s2, k);
    }
}

proof fn frame_entry_separator(s1: Seq<char>, s2: Seq<char>, i: int)
    requires
        0 <= i <= s1.len(),
        same_from(s1, s2, i),
    ensures
        spec_entry_separator(s1, i) == spec_entry_separator(s2, i),
{
    frame_line_break(s1, s2, i);
    crate::body::lemma_line_break_end(s1, i);
    if let Some(k) = spec_line_break(s1, i) {
        frame_line_breaks_end(s1, s2, k);
    }
}

proof fn frame_entries_rest(s1: Seq<char>, s2: Seq<char>, i: int)
    requires
        0 <= i <= s1.len(),
        same_from(s1, s2, i),
    ensures
        entries_rest(s1, i) == entries_rest(s2, i),
    decreases s1.len() - i,
{
    frame_entry_separator(s1, s2, i);
    crate::body::lemma_entry_separator_end(s1, i);
    if let Some(j) = spec_entry_separator(s1, i) {
        frame_entry(s1, s2, j);
        crate::body::lemma_entry_end(s1, j);
        if let Some((_, e)) = spec_entry(s1, j) {
            frame_entries_rest(s1, s2, e);
        }
    }
}

proof fn frame_key_value_pairs(s1: Seq<char>, s2: Seq<char>, i: int)
    requires
        0 <= i <= s1.len(),
        same_from(s1, s2, i),
    ensures
        spec_key_value_pairs(s1, i) == spec_key_value_pairs(s2, i),
        i <= spec_entry_list(s1, i).1 <= s1.len(),
{
    frame_entry(s1, s2, i);
    crate::body::lemma_entry_end(s1, i);
    crate::body::lemma_entry_list_end(s1, i);
    if let Some((_, e)) = spec_entry(s1, i) {
        frame_entries_rest(s1, s2, e);
    }
    assert(spec_entry_list(s1, i) == spec_entry_list(s2, i));
}

proof fn frame_body_option(s1: Seq<char>, s2: Seq<char>, i: int)
    requires
        0 <= i <= s1.len(),
        same_from(s1, s2, i),
    ensures
        spec_resource_body_option(s1, i) == spec_resource_body_option(s2, i),
{
    frame_ws(s1, s2, i);
    let a = ws_end(s1, i);
    if a + 1 <= s1.len() {
        frame_ws(s1, s2, a + 1);
        let b = ws_end(s1, a + 1);
        frame_key_value_pairs(s1, s2, b);
        let c = spec_entry_list(s1, b).1;
        frame_ws(s1, s2, c);
        let d = ws_end(s1, c);
        if d + 1 <= s1.len() {
            frame_ws(s1, s2, d + 1);
        }
        assert(spec_code_block(s1, i) == spec_code_block(s2, i));
    }
    assert(spec_statement_termination(s1, i) == spec_statement_termination(s2, i));
}

proof fn frame_modifiers_rest(s1: Seq<char>, s2: Seq<char>, i: int)
    requires
        0 <= i <= s1.len(),
        same_from(s1, s2, i),
    ensures
        modifiers_rest(s1, i) == modifiers_rest(s2, i),
    decreases s1.len() - i,
{
    reveal_strlit("scoped");
    frame_ws(s1, s2, i);
    let j = ws_end(s1, i);
    frame_tag(s1, s2, j, "scoped"@);
    if i < j && has_tag(s1, j, "scoped"@) {
        frame_modifiers_rest(s1, s2, j + 6);
    }
}

proof fn frame_path_modifiers(s1: Seq<char>, s2: Seq<char>, e: int)
    requires
        0 <= e <= s1.len(),
        same_from(s1, s2, e),
    ensures
        spec_path_modifiers(s1, e) == spec_path_modifiers(s2, e),
        e <= spec_path_modifiers(s1, e).1 <= s1.len(),
{
    reveal_strlit("scoped");
    frame_ws(s1, s2, e);
    let f = ws_end(s1, e);
    frame_tag(s1, s2, f, "scoped"@);
    if has_tag(s1, f, "scoped"@) {
        frame_modifiers_rest(s1, s2, f + 6);
        crate::statements::lemma_modifiers_rest_end(s1, f + 6);
    }
    assert(spec_resource_modifier_list(s1, f) == spec_resource_modifier_list(s2, f));
}

/// What follows a keyword that both texts carry at `i` is read alike when the
/// texts agree after the keyword.
proof fn frame_typed_resource(
    s1: Seq<char>,
    s2: Seq<char>,
    i: int,
    k1: Seq<char>,
    k2: Seq<char>,
    class: ResourceClass,
)
    requires
        0 <= i,
        k1.len() == k2.len(),
        has_tag(s1, i, k1),
        has_tag(s2, i, k2),
        same_from(s1, s2, i + k1.len()),
    ensures
        spec_typed_resource(s1, i, k1, class) == spec_typed_resource(s2, i, k2, class),
{
    reveal_strlit("of");
    let j = i + k1.len();
    frame_ws(s1, s2, j);
    let a = ws_end(s1, j);
    assert(spec_tagged_value(s1, i, k1) == spec_tagged_value(s2, i, k2));
    frame_name(s1, s2, a);
    crate::paths::lemma_name_end(s1, a);
    if let Some((_, b)) = spec_name_identifier(s1, a) {
        frame_ws(s1, s2, b);
        let c = ws_end(s1, b);
        frame_tag(s1, s2, c, "of"@);
        if has_tag(s1, c, "of"@) {
            frame_ws(s1, s2, c + 2);
        }
        assert(spec_tagged_value(s1, c, "of"@) == spec_tagged_value(s2, c, "of"@));
        if let Some(d) = spec_tagged_value(s1, c, "of"@) {
            frame_reference_path(s1, s2, d);
            crate::paths::lemma_reference_end(s1, d);
            if let Some((_, e0)) = spec_reference(s1, d) {
                crate::paths::lemma_path_rest_end(s1, e0);
            }
            if let Some((_, e)) = spec_reference_path(s1, d) {
                frame_path_modifiers(s1, s2, e);
                frame_body_option(s1, s2, spec_path_modifiers(s1, e).1);
            }
        }
    }
}

/// `provider` and `resource` declarations read the rest of the text alike:
/// under the historical options, `provider` followed by any text gives what
/// `resource` followed by the same text gives, class `Custom` included.
pub proof fn lemma_provider_reads_as_resource(rest: Seq<char>)
    ensures
        spec_resource_data_as_provider("provider"@ + rest, 0, historical_options())
            == spec_resource_data_as_custom("resource"@ + rest, 0),
{
    reveal_strlit("provider");
    reveal_strlit("resource");
    let s1 = "provider"@ + rest;
    let s2 = "resource"@ + rest;
    assert(s1.subrange(0, 8) =~= "provider"@);
    assert(s2.subrange(0, 8) =~= "resource"@);
    assert forall|m: int| 8 <= m < s1.len() implies s1[m] == s2[m] by {
        assert(s1[m] == rest[m - 8]);
        assert(s2[m] == rest[m - 8]);
    }
    frame_typed_resource(s1, s2, 0, "provider"@, "resource"@, ResourceClass::Custom);
}

} // verus!
