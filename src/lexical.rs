use vstd::prelude::*;

use crate::syntax_tree::{ExpressionView, LiteralView, NameIdentifier, NumberView};
use crate::syntax_tree::{Expression, Literal, Number};

verus! {

/// Whether `c` has the Unicode `Alphabetic` property.
pub uninterp spec fn alphabetic(c: char) -> bool;

/// Whether `c` is alphabetic or numeric in the Unicode sense.
pub uninterp spec fn alphanumeric(c: char) -> bool;

/// Relies on `char::is_alphabetic`: a function of the character alone.
#[verifier::external_body]
fn is_alphabetic(c: char) -> (r: bool)
    ensures
        r == alphabetic(c),
{
    c.is_alphabetic()
}

/// Relies on `char::is_alphanumeric`: a function of the character alone.
#[verifier::external_body]
fn is_alphanumeric(c: char) -> (r: bool)
    ensures
        r == alphanumeric(c),
{
    c.is_alphanumeric()
}

/// Relies on `String::push`: appends one character.
#[verifier::external_body]
pub(crate) fn push_char(s: &mut String, c: char)
    ensures
        final(s)@ == old(s)@.push(c),
{
    s.push(c)
}

/// A parser's result agrees with its grammar: the same value and end, or
/// failure on both sides.
pub open spec fn agrees<T: View>(r: Option<(T, usize)>, p: Option<(T::V, int)>) -> bool {
    match r {
        Some((v, e)) => p == Some((v@, e as int)),
        None => p is None,
    }
}

/// The same, for a parser that yields only where it ends.
pub open spec fn agrees_end(r: Option<usize>, p: Option<int>) -> bool {
    match r {
        Some(e) => p == Some(e as int),
        None => p is None,
    }
}

/// Where a successful parse ends.
pub open spec fn end_of<A>(p: Option<(A, int)>) -> int {
    match p {
        Some((_, e)) => e,
        None => 0,
    }
}

pub enum CharClass {
    /// space, tab, carriage return, line feed
    Multispace,
    /// space, tab
    Space,
    /// `0` to `9`
    Digit,
    /// what may follow the first character of a name
    NameChar,
    /// what may stand inside a string literal
    StringChar,
}

pub open spec fn is_ascii_letter(c: char) -> bool {
    ('a' <= c && c <= 'z') || ('A' <= c && c <= 'Z')
}

pub open spec fn is_ascii_digit(c: char) -> bool {
    '0' <= c && c <= '9'
}

/// A letter or `_`. Letters beyond ASCII are those with the Unicode
/// `Alphabetic` property.
pub open spec fn is_name_start(c: char) -> bool {
    c == '_' || is_ascii_letter(c) || (c > '\x7f' && alphabetic(c))
}

/// A letter, a digit or `_`. Beyond ASCII, letters and digits are taken in the
/// Unicode sense.
pub open spec fn is_name_char(c: char) -> bool {
    c == '_' || is_ascii_letter(c) || is_ascii_digit(c) || (c > '\x7f' && alphanumeric(c))
}

pub open spec fn is_string_char(c: char) -> bool {
    c != '"' && c != '\'' && c != '\n'
}

pub open spec fn in_class(k: CharClass, c: char) -> bool {
    match k {
        CharClass::Multispace => c == ' ' || c == '\t' || c == '\r' || c == '\n',
        CharClass::Space => c == ' ' || c == '\t',
        CharClass::Digit => is_ascii_digit(c),
        CharClass::NameChar => is_name_char(c),
        CharClass::StringChar => is_string_char(c),
    }
}

/// Where the longest run of characters of class `k` that starts at `i` ends.
pub open spec fn run_end(s: Seq<char>, i: int, k: CharClass) -> int
    decreases s.len() - i,
{
    if 0 <= i < s.len() && in_class(k, s[i]) {
        run_end(s, i + 1, k)
    } else {
        i
    }
}

pub open spec fn ws_end(s: Seq<char>, i: int) -> int {
    run_end(s, i, CharClass::Multispace)
}

pub open spec fn has_tag(s: Seq<char>, i: int, t: Seq<char>) -> bool {
    0 <= i && i + t.len() <= s.len() && s.subrange(i, i + t.len()) == t
}

pub open spec fn has_char(s: Seq<char>, i: int, c: char) -> bool {
    0 <= i < s.len() && s[i] == c
}

pub proof fn lemma_run_end(s: Seq<char>, i: int, k: CharClass)
    requires
        0 <= i <= s.len(),
    ensures
        i <= run_end(s, i, k) <= s.len(),
        forall|j: int| i <= j < run_end(s, i, k) ==> in_class(k, s[j]),
        run_end(s, i, k) < s.len() ==> !in_class(k, s[run_end(s, i, k)]),
    decreases s.len() - i,
{
    if i < s.len() && in_class(k, s[i]) {
        lemma_run_end(s, i + 1, k);
    }
}

fn name_char(c: char) -> (r: bool)
    ensures
        r == is_name_char(c),
{
    if c <= '\x7f' {
        c == '_' || ('a' <= c && c <= 'z') || ('A' <= c && c <= 'Z') || ('0' <= c && c <= '9')
    } else {
        is_alphanumeric(c)
    }
}

fn class_has(k: &CharClass, c: char) -> (r: bool)
    ensures
        r == in_class(*k, c),
{
    match k {
        CharClass::Multispace => c == ' ' || c == '\t' || c == '\r' || c == '\n',
        CharClass::Space => c == ' ' || c == '\t',
        CharClass::Digit => '0' <= c && c <= '9',
        CharClass::NameChar => name_char(c),
        CharClass::StringChar => c != '"' && c != '\'' && c != '\n',
    }
}

/// Skips the run of characters of class `k` that starts at `pos`.
pub fn scan(s: &[char], pos: usize, k: CharClass) -> (r: usize)
    requires
        pos <= s@.len(),
    ensures
        r == run_end(s@, pos as int, k),
        s@.len() <= usize::MAX,
{
    let mut i = pos;
    while i < s.len() && class_has(&k, s[i])
        invariant
            pos <= i <= s@.len(),
            run_end(s@, pos as int, k) == run_end(s@, i as int, k),
        decreases s@.len() - i,
    {
        i = i + 1;
    }
    i
}

/// Skips optional whitespace, line breaks included.
pub fn skip_ws(s: &[char], pos: usize) -> (r: usize)
    requires
        pos <= s@.len(),
    ensures
        r == ws_end(s@, pos as int),
        s@.len() <= usize::MAX,
{
    scan(s, pos, CharClass::Multispace)
}

/// Whether the text `t` stands in `s` at `pos`.
pub fn at_tag(s: &[char], pos: usize, t: &str) -> (r: bool)
    requires
        pos <= s@.len(),
    ensures
        r == has_tag(s@, pos as int, t@),
        s@.len() <= usize::MAX,
{
    let n = t.unicode_len();
    let len = s.len();
    if n > len - pos {
        return false;
    }
    let mut k: usize = 0;
    while k < n
        invariant
            n == t@.len(),
            len == s@.len(),
            pos + n <= s@.len(),
            k <= n,
            forall|j: int| 0 <= j < k ==> s@[pos + j] == t@[j],
        decreases n - k,
    {
        if s[pos + k] != t.get_char(k) {
            assert(s@.subrange(pos as int, pos + n)[k as int] != t@[k as int]);
            return false;
        }
        k = k + 1;
    }
    assert(s@.subrange(pos as int, pos + n) =~= t@);
    true
}

/// Whether the character `c` stands in `s` at `pos`.
pub fn at_char(s: &[char], pos: usize, c: char) -> (r: bool)
    ensures
        r == has_char(s@, pos as int, c),
        s@.len() <= usize::MAX,
{
    pos < s.len() && s[pos] == c
}

/// The characters of `s` from `a` to `b` as a string.
pub fn text_of(s: &[char], a: usize, b: usize) -> (r: String)
    requires
        a <= b <= s@.len(),
    ensures
        r@ == s@.subrange(a as int, b as int),
{
    let mut r = String::new();
    let mut i = a;
    while i < b
        invariant
            a <= i <= b <= s@.len(),
            r@ == s@.subrange(a as int, i as int),
        decreases b - i,
    {
        push_char(&mut r, s[i]);
        assert(s@.subrange(a as int, i + 1) =~= s@.subrange(a as int, i as int).push(s@[i as int]));
        i = i + 1;
    }
    r
}

pub open spec fn spec_name_identifier(s: Seq<char>, i: int) -> Option<(Seq<char>, int)> {
    if 0 <= i < s.len() && is_name_start(s[i]) {
        let e = run_end(s, i + 1, CharClass::NameChar);
        Some((s.subrange(i, e), e))
    } else {
        None
    }
}

fn name_start(c: char) -> (r: bool)
    ensures
        r == is_name_start(c),
{
    if c <= '\x7f' {
        c == '_' || ('a' <= c && c <= 'z') || ('A' <= c && c <= 'Z')
    } else {
        is_alphabetic(c)
    }
}

/// A name: a letter or `_`, then letters, digits or `_`.
pub fn name_identifier(s: &[char], pos: usize) -> (r: Option<(NameIdentifier, usize)>)
    requires
        pos <= s@.len(),
    ensures
        agrees(r, spec_name_identifier(s@, pos as int)),
{
    if pos < s.len() && name_start(s[pos]) {
        let e = scan(s, pos + 1, CharClass::NameChar);
        proof {
            lemma_run_end(s@, pos + 1, CharClass::NameChar);
        }
        Some((NameIdentifier { value: text_of(s, pos, e) }, e))
    } else {
        None
    }
}

pub open spec fn is_quote(c: char) -> bool {
    c == '"' || c == '\''
}

pub open spec fn spec_quote(s: Seq<char>, i: int) -> Option<(char, int)> {
    if 0 <= i < s.len() && is_quote(s[i]) {
        Some((s[i], i + 1))
    } else {
        None
    }
}

/// Either quote character.
pub fn quote(s: &[char], pos: usize) -> (r: Option<(char, usize)>)
    ensures
        agrees(r, spec_quote(s@, pos as int)),
{
    if pos < s.len() && (s[pos] == '"' || s[pos] == '\'') {
        Some((s[pos], pos + 1))
    } else {
        None
    }
}

/// Whether `c` may stand inside a string literal.
pub fn is_valid_singleline_string_char(c: char) -> (r: bool)
    ensures
        r == is_string_char(c),
{
    c != '"' && c != '\'' && c != '\n'
}

/// A quote, characters that are neither quotes nor line feeds, a quote. The two
/// quotes need not be the same character.
pub open spec fn spec_string_literal_data(s: Seq<char>, i: int) -> Option<(Seq<char>, int)> {
    match spec_quote(s, i) {
        Some((_, j)) => {
            let e = run_end(s, j, CharClass::StringChar);
            match spec_quote(s, e) {
                Some((_, f)) => Some((s.subrange(j, e), f)),
                None => None,
            }
        },
        None => None,
    }
}

pub fn string_literal_data(s: &[char], pos: usize) -> (r: Option<(String, usize)>)
    requires
        pos <= s@.len(),
    ensures
        agrees(r, spec_string_literal_data(s@, pos as int)),
{
    match quote(s, pos) {
        Some((_, j)) => {
            let e = scan(s, j, CharClass::StringChar);
            proof {
                lemma_run_end(s@, j as int, CharClass::StringChar);
            }
            match quote(s, e) {
                Some((_, f)) => Some((text_of(s, j, e), f)),
                None => None,
            }
        },
        None => None,
    }
}

pub open spec fn literal_string(v: Seq<char>) -> ExpressionView {
    ExpressionView::Literal(LiteralView::String(v))
}

pub open spec fn spec_string_literal_expression(s: Seq<char>, i: int) -> Option<(ExpressionView, int)> {
    match spec_string_literal_data(s, i) {
        Some((v, e)) => Some((literal_string(v), e)),
        None => None,
    }
}

pub fn string_literal_expression(s: &[char], pos: usize) -> (r: Option<(Expression, usize)>)
    requires
        pos <= s@.len(),
    ensures
        agrees(r, spec_string_literal_expression(s@, pos as int)),
{
    match string_literal_data(s, pos) {
        Some((v, e)) => Some((Expression::Literal(Literal::String(v)), e)),
        None => None,
    }
}

pub open spec fn spec_integer_number_literal_data(s: Seq<char>, i: int) -> Option<(Seq<char>, int)> {
    let e = run_end(s, i, CharClass::Digit);
    if e > i {
        Some((s.subrange(i, e), e))
    } else {
        None
    }
}

/// One or more decimal digits, kept as text.
pub fn integer_number_literal_data(s: &[char], pos: usize) -> (r: Option<(String, usize)>)
    requires
        pos <= s@.len(),
    ensures
        agrees(r, spec_integer_number_literal_data(s@, pos as int)),
{
    let e = scan(s, pos, CharClass::Digit);
    proof {
        lemma_run_end(s@, pos as int, CharClass::Digit);
    }
    if e > pos {
        Some((text_of(s, pos, e), e))
    } else {
        None
    }
}

pub open spec fn literal_integer(v: Seq<char>) -> ExpressionView {
    ExpressionView::Literal(LiteralView::Number(NumberView::Integer(v)))
}

pub open spec fn spec_integer_number_literal_expression(s: Seq<char>, i: int) -> Option<
    (ExpressionView, int),
> {
    match spec_integer_number_literal_data(s, i) {
        Some((v, e)) => Some((literal_integer(v), e)),
        None => None,
    }
}

pub fn integer_number_literal_expression(s: &[char], pos: usize) -> (r: Option<(Expression, usize)>)
    requires
        pos <= s@.len(),
    ensures
        agrees(r, spec_integer_number_literal_expression(s@, pos as int)),
{
    match integer_number_literal_data(s, pos) {
        Some((v, e)) => Some((Expression::Literal(Literal::Number(Number::Integer(v))), e)),
        None => None,
    }
}

/// Digits, `.`, digits; the text is kept as written.
pub open spec fn spec_float_number_literal_data(s: Seq<char>, i: int) -> Option<(Seq<char>, int)> {
    let d = run_end(s, i, CharClass::Digit);
    let e = run_end(s, d + 1, CharClass::Digit);
    if d > i && has_char(s, d, '.') && e > d + 1 {
        Some((s.subrange(i, e), e))
    } else {
        None
    }
}

pub fn float_number_literal_data(s: &[char], pos: usize) -> (r: Option<(String, usize)>)
    requires
        pos <= s@.len(),
    ensures
        agrees(r, spec_float_number_literal_data(s@, pos as int)),
{
    let d = scan(s, pos, CharClass::Digit);
    proof {
        lemma_run_end(s@, pos as int, CharClass::Digit);
    }
    if d > pos && d < s.len() && s[d] == '.' {
        let e = scan(s, d + 1, CharClass::Digit);
        proof {
            lemma_run_end(s@, d + 1, CharClass::Digit);
        }
        if e > d + 1 {
            return Some((text_of(s, pos, e), e));
        }
    }
    None
}

pub open spec fn literal_float(v: Seq<char>) -> ExpressionView {
    ExpressionView::Literal(LiteralView::Number(NumberView::FloatingPoint(v)))
}

pub open spec fn spec_float_number_literal_expression(s: Seq<char>, i: int) -> Option<
    (ExpressionView, int),
> {
    match spec_float_number_literal_data(s, i) {
        Some((v, e)) => Some((literal_float(v), e)),
        None => None,
    }
}

pub fn float_number_literal_expression(s: &[char], pos: usize) -> (r: Option<(Expression, usize)>)
    requires
        pos <= s@.len(),
    ensures
        agrees(r, spec_float_number_literal_expression(s@, pos as int)),
{
    match float_number_literal_data(s, pos) {
        Some((v, e)) => Some((Expression::Literal(Literal::Number(Number::FloatingPoint(v))), e)),
        None => None,
    }
}

pub open spec fn literal_boolean(b: bool) -> ExpressionView {
    ExpressionView::Literal(LiteralView::Boolean(b))
}

pub open spec fn spec_boolean_literal_expression(s: Seq<char>, i: int) -> Option<
    (ExpressionView, int),
> {
    if has_tag(s, i, "true"@) {
        Some((literal_boolean(true), i + "true"@.len()))
    } else if has_tag(s, i, "false"@) {
        Some((literal_boolean(false), i + "false"@.len()))
    } else {
        None
    }
}

/// `true` or `false`, exactly as written.
pub fn boolean_literal_expression(s: &[char], pos: usize) -> (r: Option<(Expression, usize)>)
    requires
        pos <= s@.len(),
    ensures
        agrees(r, spec_boolean_literal_expression(s@, pos as int)),
{
    let t = "true";
    let f = "false";
    if at_tag(s, pos, t) {
        Some((Expression::Literal(Literal::Boolean(true)), pos + t.unicode_len()))
    } else if at_tag(s, pos, f) {
        Some((Expression::Literal(Literal::Boolean(false)), pos + f.unicode_len()))
    } else {
        None
    }
}

/// A literal: a boolean, a string, then a number. A numeral with a fraction is
/// tried before one without, so that `1.5` is read whole.
pub open spec fn spec_literal_expression(s: Seq<char>, i: int) -> Option<(ExpressionView, int)> {
    if spec_boolean_literal_expression(s, i) is Some {
        spec_boolean_literal_expression(s, i)
    } else if spec_string_literal_expression(s, i) is Some {
        spec_string_literal_expression(s, i)
    } else if spec_float_number_literal_expression(s, i) is Some {
        spec_float_number_literal_expression(s, i)
    } else {
        spec_integer_number_literal_expression(s, i)
    }
}

pub fn literal_expression(s: &[char], pos: usize) -> (r: Option<(Expression, usize)>)
    requires
        pos <= s@.len(),
    ensures
        agrees(r, spec_literal_expression(s@, pos as int)),
{
    let b = boolean_literal_expression(s, pos);
    if b.is_some() {
        return b;
    }
    let t = string_literal_expression(s, pos);
    if t.is_some() {
        return t;
    }
    let f = float_number_literal_expression(s, pos);
    if f.is_some() {
        return f;
    }
    integer_number_literal_expression(s, pos)
}

} // verus!
