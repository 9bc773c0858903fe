use vstd::prelude::*;

use crate::body::{resource_body_option, spec_resource_body_option};
use crate::lexical::{
    agrees, agrees_end, at_tag, end_of, has_tag, lemma_run_end, name_identifier, skip_ws,
    spec_name_identifier, ws_end, CharClass,
};
use crate::paths::{reference_path, spec_reference_path};
use crate::syntax_tree::{
    ReferencePath, ResourceClass, ResourceData, ResourceDataView, ResourceModifier, Statement,
    StatementView, SyntaxTree,
};

verus! {

/// How the parser reads what the grammar leaves to choice.
#[derive(Clone, Copy, Debug, PartialEq, Eq, Structural)]
pub struct ParseOptions {
    /// Give `provider` declarations the class `Provider`. Off, they get the
    /// class `Custom`, as `.land` files have always been read.
    pub classify_providers: bool,
}

/// The options under which `.land` files have always been read.
pub open spec fn historical_options() -> ParseOptions {
    ParseOptions { classify_providers: false }
}

impl ParseOptions {
    /// The options under which `.land` files have always been read.
    pub fn historical() -> (r: ParseOptions)
        ensures
            r == historical_options(),
    {
        ParseOptions { classify_providers: false }
    }
}

/// The class that a `provider` declaration gets.
pub open spec fn provider_class(o: ParseOptions) -> ResourceClass {
    if o.classify_providers {
        ResourceClass::Provider
    } else {
        ResourceClass::Custom
    }
}

/// A keyword, then at least one whitespace character.
pub open spec fn spec_tagged_value(s: Seq<char>, i: int, t: Seq<char>) -> Option<int> {
    if has_tag(s, i, t) && ws_end(s, i + t.len()) > i + t.len() {
        Some(ws_end(s, i + t.len()))
    } else {
        None
    }
}

pub fn tagged_value(s: &[char], pos: usize, t: &str) -> (r: Option<usize>)
    requires
        pos <= s@.len(),
    ensures
        agrees_end(r, spec_tagged_value(s@, pos as int, t@)),
{
    if !at_tag(s, pos, t) {
        return None;
    }
    let j = pos + t.unicode_len();
    let e = skip_ws(s, j);
    if e > j {
        Some(e)
    } else {
        None
    }
}

/// The modifiers after the first one, each after at least one whitespace character.
pub open spec fn modifiers_rest(s: Seq<char>, i: int) -> (Seq<ResourceModifier>, int)
    decreases s.len() - i,
{
    let j = ws_end(s, i);
    if 0 <= i < j && has_tag(s, j, "scoped"@) {
        proof {
            reveal_strlit("scoped");
        }
        let (rest, f) = modifiers_rest(s, j + "scoped"@.len());
        (seq![ResourceModifier::Scoped] + rest, f)
    } else {
        (seq![], i)
    }
}

/// Zero or more modifier keywords, separated by whitespace.
pub open spec fn spec_resource_modifier_list(s: Seq<char>, i: int) -> (Seq<ResourceModifier>, int) {
    if has_tag(s, i, "scoped"@) {
        let (rest, f) = modifiers_rest(s, i + "scoped"@.len());
        (seq![ResourceModifier::Scoped] + rest, f)
    } else {
        (seq![], i)
    }
}

pub proof fn lemma_modifiers_rest_end(s: Seq<char>, i: int)
    requires
        0 <= i <= s.len(),
    ensures
        i <= modifiers_rest(s, i).1 <= s.len(),
    decreases s.len() - i,
{
    reveal_strlit("scoped");
    lemma_run_end(s, i, CharClass::Multispace);
    let j = ws_end(s, i);
    if i < j && has_tag(s, j, "scoped"@) {
        lemma_modifiers_rest_end(s, j + "scoped"@.len());
    }
}

pub fn resource_modifier_list(s: &[char], pos: usize) -> (r: (Vec<ResourceModifier>, usize))
    requires
        pos <= s@.len(),
    ensures
        spec_resource_modifier_list(s@, pos as int) == (r.0@, r.1 as int),
{
    let scoped = "scoped";
    let n = scoped.unicode_len();
    let mut mods: Vec<ResourceModifier> = Vec::new();
    if !at_tag(s, pos, scoped) {
        return (mods, pos);
    }
    mods.push(ResourceModifier::Scoped);
    let mut i = pos + n;
    proof {
        reveal_strlit("scoped");
    }
    loop
        invariant
            n == "scoped"@.len(),
            scoped@ == "scoped"@,
            n == 6,
            i <= s@.len(),
            spec_resource_modifier_list(s@, pos as int) == (
                mods@ + modifiers_rest(s@, i as int).0,
                modifiers_rest(s@, i as int).1,
            ),
        ensures
            spec_resource_modifier_list(s@, pos as int) == (mods@, i as int),
        decreases s@.len() - i,
    {
        let j = skip_ws(s, i);
        proof {
            lemma_run_end(s@, i as int, CharClass::Multispace);
        }
        if j > i && at_tag(s, j, scoped) {
            assert(mods@ + modifiers_rest(s@, i as int).0 =~= mods@.push(ResourceModifier::Scoped)
                + modifiers_rest(s@, j + n).0);
            mods.push(ResourceModifier::Scoped);
            i = j + n;
        } else {
            assert(mods@ + modifiers_rest(s@, i as int).0 =~= mods@);
            break ;
        }
    }
    (mods, i)
}

/// The modifiers after a type path. They stand after whitespace; where none
/// follows, the body may come at once.
pub open spec fn spec_path_modifiers(s: Seq<char>, e: int) -> (Seq<ResourceModifier>, int) {
    if ws_end(s, e) > e {
        spec_resource_modifier_list(s, ws_end(s, e))
    } else {
        (seq![], e)
    }
}

/// `<keyword> name of path [modifiers] body`: whitespace after the keyword,
/// around `of`, and before any modifier.
pub open spec fn spec_typed_resource(
    s: Seq<char>,
    i: int,
    keyword: Seq<char>,
    class: ResourceClass,
) -> Option<(ResourceDataView, int)> {
    match spec_tagged_value(s, i, keyword) {
        Some(a) => match spec_name_identifier(s, a) {
            Some((name, b)) => match spec_tagged_value(s, ws_end(s, b), "of"@) {
                Some(d) => if ws_end(s, b) > b {
                    match spec_reference_path(s, d) {
                        Some((path, e)) => {
                            let (mods, g) = spec_path_modifiers(s, e);
                            match spec_resource_body_option(s, g) {
                                Some((body, h)) => Some(
                                    (
                                        ResourceDataView {
                                            name,
                                            type_path: path,
                                            body,
                                            class,
                                            is_scoped: mods.contains(ResourceModifier::Scoped),
                                        },
                                        h,
                                    ),
                                ),
                                None => None,
                            }
                        },
                        None => None,
                    }
                } else {
                    None
                },
                None => None,
            },
            None => None,
        },
        None => None,
    }
}

fn typed_resource(s: &[char], pos: usize, keyword: &str, class: ResourceClass) -> (r: Option<
    (ResourceData, usize),
>)
    requires
        pos <= s@.len(),
    ensures
        agrees(r, spec_typed_resource(s@, pos as int, keyword@, class)),
        r matches Some((d, _)) ==> d.wf(),
{
    let a = match tagged_value(s, pos, keyword) {
        Some(a) => a,
        None => return None,
    };
    proof {
        reveal_strlit("of");
        lemma_run_end(s@, pos + keyword@.len(), CharClass::Multispace);
    }
    let (name, b) = match name_identifier(s, a) {
        Some(p) => p,
        None => return None,
    };
    proof {
        crate::paths::lemma_name_end(s@, a as int);
        lemma_run_end(s@, b as int, CharClass::Multispace);
    }
    let c = skip_ws(s, b);
    let d = match tagged_value(s, c, "of") {
        Some(d) => d,
        None => return None,
    };
    if c == b {
        return None;
    }
    proof {
        lemma_run_end(s@, c + 2, CharClass::Multispace);
        crate::paths::lemma_reference_end(s@, d as int);
        if let Some((_, e0)) = crate::paths::spec_reference(s@, d as int) {
            crate::paths::lemma_path_rest_end(s@, e0);
        }
    }
    let (path, e) = match reference_path(s, d) {
        Some(p) => p,
        None => return None,
    };
    proof {
        lemma_run_end(s@, e as int, CharClass::Multispace);
    }
    let f = skip_ws(s, e);
    let (mods, g) = if f > e {
        resource_modifier_list(s, f)
    } else {
        let none: Vec<ResourceModifier> = Vec::new();
        assert(none@ =~= seq![]);
        (none, e)
    };
    proof {
        reveal_strlit("scoped");
        if has_tag(s@, f as int, "scoped"@) {
            lemma_modifiers_rest_end(s@, f + 6);
        }
    }
    match resource_body_option(s, g) {
        Some((body, h)) => Some((ResourceData::new(name, path, body, class, &mods), h)),
        None => None,
    }
}

pub open spec fn spec_resource_data_as_custom(s: Seq<char>, i: int) -> Option<(ResourceDataView, int)> {
    spec_typed_resource(s, i, "resource"@, ResourceClass::Custom)
}

/// `resource name of path [scoped] body`.
pub fn resource_data_as_custom(s: &[char], pos: usize) -> (r: Option<(ResourceData, usize)>)
    requires
        pos <= s@.len(),
    ensures
        agrees(r, spec_resource_data_as_custom(s@, pos as int)),
        r matches Some((d, _)) ==> d.wf(),
{
    typed_resource(s, pos, "resource", ResourceClass::Custom)
}

pub open spec fn spec_resource_data_as_provider(s: Seq<char>, i: int, o: ParseOptions) -> Option<
    (ResourceDataView, int),
> {
    spec_typed_resource(s, i, "provider"@, provider_class(o))
}

/// `provider name of path [scoped] body`; its class is set by `options`.
pub fn resource_data_as_provider(s: &[char], pos: usize, options: &ParseOptions) -> (r: Option<
    (ResourceData, usize),
>)
    requires
        pos <= s@.len(),
    ensures
        agrees(r, spec_resource_data_as_provider(s@, pos as int, *options)),
        r matches Some((d, _)) ==> d.wf(),
{
    let class = if options.classify_providers {
        ResourceClass::Provider
    } else {
        ResourceClass::Custom
    };
    typed_resource(s, pos, "provider", class)
}

/// `variable name body`: no type path and no modifiers.
pub open spec fn spec_resource_data_as_variable(s: Seq<char>, i: int) -> Option<(ResourceDataView, int)> {
    match spec_tagged_value(s, i, "variable"@) {
        Some(a) => match spec_name_identifier(s, a) {
            Some((name, b)) => if ws_end(s, b) > b {
                match spec_resource_body_option(s, ws_end(s, b)) {
                    Some((body, h)) => Some(
                        (
                            ResourceDataView {
                                name,
                                type_path: seq![],
                                body,
                                class: ResourceClass::Variable,
                                is_scoped: false,
                            },
                            h,
                        ),
                    ),
                    None => None,
                }
            } else {
                None
            },
            None => None,
        },
        None => None,
    }
}

pub fn resource_data_as_variable(s: &[char], pos: usize) -> (r: Option<(ResourceData, usize)>)
    requires
        pos <= s@.len(),
    ensures
        agrees(r, spec_resource_data_as_variable(s@, pos as int)),
        r matches Some((d, _)) ==> d.wf(),
{
    let a = match tagged_value(s, pos, "variable") {
        Some(a) => a,
        None => return None,
    };
    proof {
        lemma_run_end(s@, pos + "variable"@.len(), CharClass::Multispace);
    }
    let (name, b) = match name_identifier(s, a) {
        Some(p) => p,
        None => return None,
    };
    proof {
        crate::paths::lemma_name_end(s@, a as int);
        lemma_run_end(s@, b as int, CharClass::Multispace);
    }
    let c = skip_ws(s, b);
    if c == b {
        return None;
    }
    match resource_body_option(s, c) {
        Some((body, h)) => {
            let type_path = ReferencePath { sequence: Vec::new() };
            let mods: Vec<ResourceModifier> = Vec::new();
            let d = ResourceData::new(name, type_path, body, ResourceClass::Variable, &mods);
            assert(d.type_path@ =~= seq![]);
            Some((d, h))
        },
        None => None,
    }
}

/// The three resource forms, tried in the order custom, provider, variable.
pub open spec fn spec_resource_data(s: Seq<char>, i: int, o: ParseOptions) -> Option<
    (ResourceDataView, int),
> {
    if spec_resource_data_as_custom(s, i) is Some {
        spec_resource_data_as_custom(s, i)
    } else if spec_resource_data_as_provider(s, i, o) is Some {
        spec_resource_data_as_provider(s, i, o)
    } else {
        spec_resource_data_as_variable(s, i)
    }
}

pub fn resource_data(s: &[char], pos: usize, options: &ParseOptions) -> (r: Option<
    (ResourceData, usize),
>)
    requires
        pos <= s@.len(),
    ensures
        agrees(r, spec_resource_data(s@, pos as int, *options)),
        r matches Some((d, _)) ==> d.wf(),
{
    let c = resource_data_as_custom(s, pos);
    if c.is_some() {
        return c;
    }
    let p = resource_data_as_provider(s, pos, options);
    if p.is_some() {
        return p;
    }
    resource_data_as_variable(s, pos)
}

pub open spec fn spec_statement(s: Seq<char>, i: int, o: ParseOptions) -> Option<(StatementView, int)> {
    match spec_resource_data(s, i, o) {
        Some((d, e)) => Some((StatementView::Resource(d), e)),
        None => None,
    }
}

pub fn statement(s: &[char], pos: usize, options: &ParseOptions) -> (r: Option<(Statement, usize)>)
    requires
        pos <= s@.len(),
    ensures
        agrees(r, spec_statement(s@, pos as int, *options)),
        r matches Some((st, _)) ==> st.wf(),
{
    match resource_data(s, pos, options) {
        Some((d, e)) => Some((Statement::Resource(d), e)),
        None => None,
    }
}

pub proof fn lemma_typed_resource_end(s: Seq<char>, i: int, keyword: Seq<char>, class: ResourceClass)
    requires
        0 <= i <= s.len(),
    ensures
        spec_typed_resource(s, i, keyword, class) matches Some((_, h)) ==> i < h <= s.len(),
        spec_typed_resource(s, i, keyword, class) matches Some((_, h)) ==> exists|g: int|
            0 <= g <= s.len() && spec_resource_body_option(s, g) is Some
                && end_of(spec_resource_body_option(s, g)) == h,
{
    reveal_strlit("of");
    if let Some(a) = spec_tagged_value(s, i, keyword) {
        lemma_run_end(s, i + keyword.len(), CharClass::Multispace);
        crate::paths::lemma_name_end(s, a);
        if let Some((_, b)) = spec_name_identifier(s, a) {
            lemma_run_end(s, b, CharClass::Multispace);
            let c = ws_end(s, b);
            if let Some(d) = spec_tagged_value(s, c, "of"@) {
                lemma_run_end(s, c + 2, CharClass::Multispace);
                crate::paths::lemma_reference_end(s, d);
                if let Some((_, e0)) = crate::paths::spec_reference(s, d) {
                    crate::paths::lemma_path_rest_end(s, e0);
                }
                if let Some((_, e)) = spec_reference_path(s, d) {
                    lemma_run_end(s, e, CharClass::Multispace);
                    let f = ws_end(s, e);
                    reveal_strlit("scoped");
                    if has_tag(s, f, "scoped"@) {
                        lemma_modifiers_rest_end(s, f + 6);
                    }
                    let g = spec_path_modifiers(s, e).1;
                    crate::body::lemma_body_option_end(s, g);
                    if spec_resource_body_option(s, g) is Some {
                        assert(0 <= g <= s.len());
                    }
                }
            }
        }
    }
}

pub proof fn lemma_statement_end(s: Seq<char>, i: int, o: ParseOptions)
    requires
        0 <= i <= s.len(),
    ensures
        spec_statement(s, i, o) matches Some((_, e)) ==> i < e <= s.len(),
        spec_statement(s, i, o) matches Some((_, e)) ==> exists|g: int|
            0 <= g <= s.len() && spec_resource_body_option(s, g) is Some
                && end_of(spec_resource_body_option(s, g)) == e,
{
    reveal_strlit("resource");
    reveal_strlit("provider");
    reveal_strlit("variable");
    lemma_typed_resource_end(s, i, "resource"@, ResourceClass::Custom);
    lemma_typed_resource_end(s, i, "provider"@, provider_class(o));
    if let Some(a) = spec_tagged_value(s, i, "variable"@) {
        lemma_run_end(s, i + 8, CharClass::Multispace);
        crate::paths::lemma_name_end(s, a);
        if let Some((_, b)) = spec_name_identifier(s, a) {
            lemma_run_end(s, b, CharClass::Multispace);
            crate::body::lemma_body_option_end(s, ws_end(s, b));
            if spec_resource_body_option(s, ws_end(s, b)) is Some {
                assert(0 <= ws_end(s, b) <= s.len());
            }
        }
    }
}

/// Statements one after another, from `i` on, as far as they can be read.
pub open spec fn statements_from(s: Seq<char>, i: int, o: ParseOptions) -> (Seq<StatementView>, int)
    decreases s.len() - i,
{
    if 0 <= i <= s.len() {
        match spec_statement(s, i, o) {
            Some((st, e)) => {
                proof {
                    lemma_statement_end(s, i, o);
                }
                let (rest, f) = statements_from(s, e, o);
                (seq![st] + rest, f)
            },
            None => (seq![], i),
        }
    } else {
        (seq![], i)
    }
}

/// A whole program: optional whitespace, statements, optional whitespace, and
/// nothing else.
pub open spec fn spec_syntax_tree(s: Seq<char>, o: ParseOptions) -> Option<Seq<StatementView>> {
    let (sts, e) = statements_from(s, ws_end(s, 0), o);
    if ws_end(s, e) == s.len() {
        Some(sts)
    } else {
        None
    }
}

pub fn syntax_tree(s: &[char], options: &ParseOptions) -> (r: Option<SyntaxTree>)
    ensures
        match r {
            Some(t) => spec_syntax_tree(s@, *options) == Some(t@) && t.wf(),
            None => spec_syntax_tree(s@, *options) is None,
        },
{
    let len = s.len();
    let start = skip_ws(s, 0);
    proof {
        lemma_run_end(s@, 0, CharClass::Multispace);
    }
    let mut statements: Vec<Statement> = Vec::new();
    let mut i = start;
    let ghost whole = statements_from(s@, start as int, *options);
    assert(statements@.map_values(|st: Statement| st@) =~= seq![]);
    loop
        invariant
            len == s@.len(),
            i <= s@.len(),
            whole == statements_from(s@, start as int, *options),
            whole == (
                statements@.map_values(|st: Statement| st@) + statements_from(s@, i as int, *options).0,
                statements_from(s@, i as int, *options).1,
            ),
            forall|k: int| 0 <= k < statements@.len() ==> (#[trigger] statements@[k]).wf(),
        ensures
            whole == (statements@.map_values(|st: Statement| st@), i as int),
            forall|k: int| 0 <= k < statements@.len() ==> (#[trigger] statements@[k]).wf(),
        decreases s@.len() - i,
    {
        proof {
            lemma_statement_end(s@, i as int, *options);
        }
        match statement(s, i, options) {
            Some((st, e)) => {
                proof {
                    let old_views = statements@.map_values(|x: Statement| x@);
                    assert(statements@.push(st).map_values(|x: Statement| x@) =~= old_views.push(
                        st@,
                    ));
                    assert(old_views + statements_from(s@, i as int, *options).0 =~= old_views.push(
                        st@,
                    ) + statements_from(s@, e as int, *options).0);
                }
                statements.push(st);
                i = e;
            },
            None => {
                assert(statements@.map_values(|x: Statement| x@) + statements_from(
                    s@,
                    i as int,
                    *options,
                ).0 =~= statements@.map_values(|x: Statement| x@));
                break ;
            },
        }
    }
    let end = skip_ws(s, i);
    if end == len {
        Some(SyntaxTree { statements })
    } else {
        None
    }
}

} // verus!
