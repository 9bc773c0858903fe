use vstd::prelude::*;

verus! {

/// A single identifier token; two identifiers are the same iff their text matches.
#[derive(Clone, Debug, Hash)]
pub struct NameIdentifier {
    pub value: String,
}

impl View for NameIdentifier {
    type V = Seq<char>;

    open spec fn view(&self) -> Seq<char> {
        self.value@
    }
}

impl PartialEq for NameIdentifier {
    fn eq(&self, other: &NameIdentifier) -> (r: bool) {
        self.value == other.value
    }
}

impl vstd::std_specs::cmp::PartialEqSpecImpl for NameIdentifier {
    open spec fn obeys_eq_spec() -> bool {
        true
    }

    open spec fn eq_spec(&self, other: &NameIdentifier) -> bool {
        self@ == other@
    }
}

impl Eq for NameIdentifier {}

/// One segment of a `::`-joined path: a name, or one of the reserved words.
#[derive(Clone, Debug, Hash)]
pub enum Reference {
    Name(NameIdentifier),
    Super,
    Land,
}

pub enum ReferenceView {
    Name(Seq<char>),
    Super,
    Land,
}

impl View for Reference {
    type V = ReferenceView;

    open spec fn view(&self) -> ReferenceView {
        match self {
            Reference::Name(n) => ReferenceView::Name(n@),
            Reference::Super => ReferenceView::Super,
            Reference::Land => ReferenceView::Land,
        }
    }
}

impl PartialEq for Reference {
    fn eq(&self, other: &Reference) -> (r: bool) {
        match (self, other) {
            (Reference::Name(a), Reference::Name(b)) => a.value == b.value,
            (Reference::Super, Reference::Super) => true,
            (Reference::Land, Reference::Land) => true,
            _ => false,
        }
    }
}

impl vstd::std_specs::cmp::PartialEqSpecImpl for Reference {
    open spec fn obeys_eq_spec() -> bool {
        true
    }

    open spec fn eq_spec(&self, other: &Reference) -> bool {
        self@ == other@
    }
}

impl Eq for Reference {}

pub open spec fn names_view(v: Seq<NameIdentifier>) -> Seq<Seq<char>> {
    v.map_values(|n: NameIdentifier| n@)
}

pub open spec fn references_view(v: Seq<Reference>) -> Seq<ReferenceView> {
    v.map_values(|r: Reference| r@)
}

/// A `::`-joined sequence of references.
#[derive(Clone, Debug)]
pub struct ReferencePath {
    pub sequence: Vec<Reference>,
}

impl View for ReferencePath {
    type V = Seq<ReferenceView>;

    open spec fn view(&self) -> Seq<ReferenceView> {
        references_view(self.sequence@)
    }
}

/// A reference path with an optional `.`-separated member suffix.
#[derive(Clone, Debug)]
pub struct ObjectPath {
    pub object: ReferencePath,
    pub member_path: Option<Vec<NameIdentifier>>,
}

pub struct ObjectPathView {
    pub object: Seq<ReferenceView>,
    pub member_path: Option<Seq<Seq<char>>>,
}

impl View for ObjectPath {
    type V = ObjectPathView;

    open spec fn view(&self) -> ObjectPathView {
        ObjectPathView {
            object: self.object@,
            member_path: match self.member_path {
                Some(m) => Some(names_view(m@)),
                None => None,
            },
        }
    }
}

/// A numeral, kept as the text it was written with.
#[derive(Clone, Debug)]
pub enum Number {
    Integer(String),
    FloatingPoint(String),
}

pub enum NumberView {
    Integer(Seq<char>),
    FloatingPoint(Seq<char>),
}

impl View for Number {
    type V = NumberView;

    open spec fn view(&self) -> NumberView {
        match self {
            Number::Integer(s) => NumberView::Integer(s@),
            Number::FloatingPoint(s) => NumberView::FloatingPoint(s@),
        }
    }
}

#[derive(Clone, Debug)]
pub enum Literal {
    Boolean(bool),
    String(String),
    Number(Number),
}

pub enum LiteralView {
    Boolean(bool),
    String(Seq<char>),
    Number(NumberView),
}

impl View for Literal {
    type V = LiteralView;

    open spec fn view(&self) -> LiteralView {
        match self {
            Literal::Boolean(b) => LiteralView::Boolean(*b),
            Literal::String(s) => LiteralView::String(s@),
            Literal::Number(n) => LiteralView::Number(n@),
        }
    }
}

/// A value on the right of `=` in a resource body. The grammar produces
/// `Literal` and `Object`; `Reference` is kept for later growth of the language.
#[derive(Clone, Debug)]
pub enum Expression {
    Literal(Literal),
    Reference(ReferencePath),
    Object(ObjectPath),
}

pub enum ExpressionView {
    Literal(LiteralView),
    Reference(Seq<ReferenceView>),
    Object(ObjectPathView),
}

impl View for Expression {
    type V = ExpressionView;

    open spec fn view(&self) -> ExpressionView {
        match self {
            Expression::Literal(l) => ExpressionView::Literal(l@),
            Expression::Reference(p) => ExpressionView::Reference(p@),
            Expression::Object(o) => ExpressionView::Object(o@),
        }
    }
}

#[derive(Clone, Copy, Debug, PartialEq, Eq, Structural)]
pub enum ResourceModifier {
    Scoped,
}

/// Which surface form produced a resource.
#[derive(Clone, Copy, Debug, PartialEq, Eq, Structural)]
pub enum ResourceClass {
    Custom,
    Variable,
    Provider,
}


/// The mapping that a list of entries denotes: a later entry for a key
/// replaces an earlier one.
pub open spec fn map_of(s: Seq<(Seq<char>, ExpressionView)>) -> Map<Seq<char>, ExpressionView>
    decreases s.len(),
{
    if s.len() == 0 {
        Map::empty()
    } else {
        map_of(s.drop_last()).insert(s.last().0, s.last().1)
    }
}

pub open spec fn keys_unique(s: Seq<(Seq<char>, ExpressionView)>) -> bool {
    forall|a: int, b: int| 0 <= a < b < s.len() ==> s[a].0 != s[b].0
}

pub proof fn lemma_map_of_dom(s: Seq<(Seq<char>, ExpressionView)>, k: Seq<char>)
    ensures
        map_of(s).contains_key(k) <==> exists|j: int| 0 <= j < s.len() && s[j].0 == k,
    decreases s.len(),
{
    if s.len() > 0 {
        lemma_map_of_dom(s.drop_last(), k);
        if exists|j: int| 0 <= j < s.len() && s[j].0 == k {
            let j = choose|j: int| 0 <= j < s.len() && s[j].0 == k;
            if j < s.len() - 1 {
                assert(s.drop_last()[j].0 == k);
            }
        }
        if exists|j: int| 0 <= j < s.len() - 1 && s.drop_last()[j].0 == k {
            let j = choose|j: int| 0 <= j < s.len() - 1 && s.drop_last()[j].0 == k;
            assert(s[j].0 == k);
        }
    }
}

pub proof fn lemma_map_of_at(s: Seq<(Seq<char>, ExpressionView)>, j: int)
    requires
        keys_unique(s),
        0 <= j < s.len(),
    ensures
        map_of(s).contains_key(s[j].0),
        map_of(s)[s[j].0] == s[j].1,
    decreases s.len(),
{
    if j < s.len() - 1 {
        lemma_map_of_at(s.drop_last(), j);
    }
}

pub proof fn lemma_map_of_len(s: Seq<(Seq<char>, ExpressionView)>)
    requires
        keys_unique(s),
    ensures
        map_of(s).dom().finite(),
        map_of(s).len() == s.len(),
    decreases s.len(),
{
    if s.len() > 0 {
        let t = s.drop_last();
        lemma_map_of_len(t);
        lemma_map_of_dom(t, s.last().0);
        if map_of(t).contains_key(s.last().0) {
            let j = choose|j: int| 0 <= j < t.len() && t[j].0 == s.last().0;
            assert(s[j].0 == s[s.len() - 1].0);
        }
    }
}

pub proof fn lemma_map_of_update(s: Seq<(Seq<char>, ExpressionView)>, j: int, v: ExpressionView)
    requires
        keys_unique(s),
        0 <= j < s.len(),
    ensures
        keys_unique(s.update(j, (s[j].0, v))),
        map_of(s.update(j, (s[j].0, v))) == map_of(s).insert(s[j].0, v),
    decreases s.len(),
{
    let u = s.update(j, (s[j].0, v));
    assert(forall|a: int| 0 <= a < s.len() ==> u[a].0 == s[a].0);
    if j == s.len() - 1 {
        assert(u.drop_last() =~= s.drop_last());
    } else {
        lemma_map_of_update(s.drop_last(), j, v);
        assert(u.drop_last() =~= s.drop_last().update(j, (s[j].0, v)));
        assert(s.last().0 != s[j].0);
        assert(map_of(u) =~= map_of(s).insert(s[j].0, v));
    }
}

/// The body of a resource: a mapping from keys to expressions, each key at most once.
/// Its entries keep the order in which their keys were first set; `==`, like the
/// view, `get` and `len`, sees the mapping alone.
#[derive(Clone, Debug)]
pub struct ResourceBody {
    entries: Vec<(NameIdentifier, Expression)>,
}

impl View for ResourceBody {
    type V = Map<Seq<char>, ExpressionView>;

    open spec fn view(&self) -> Map<Seq<char>, ExpressionView> {
        map_of(self.entry_views())
    }
}

impl ResourceBody {
    pub closed spec fn entry_views(&self) -> Seq<(Seq<char>, ExpressionView)> {
        self.entries@.map_values(|p: (NameIdentifier, Expression)| (p.0@, p.1@))
    }

    pub open spec fn wf(&self) -> bool {
        keys_unique(self.entry_views())
    }

    pub fn new() -> (r: ResourceBody)
        ensures
            r.wf(),
            r@ == Map::<Seq<char>, ExpressionView>::empty(),
    {
        let r = ResourceBody { entries: Vec::new() };
        assert(r.entry_views() =~= Seq::empty());
        r
    }

    /// Sets the value of `key`, replacing any earlier value.
    pub fn insert(&mut self, key: NameIdentifier, value: Expression)
        requires
            old(self).wf(),
        ensures
            final(self).wf(),
            final(self)@ == old(self)@.insert(key@, value@),
    {
        let ghost kv = key@;
        let ghost vv = value@;
        let mut i: usize = 0;
        while i < self.entries.len()
            invariant
                self.wf(),
                *self == *old(self),
                key@ == kv,
                value@ == vv,
                i <= self.entries@.len(),
                forall|j: int| 0 <= j < i ==> self.entry_views()[j].0 != kv,
            decreases self.entries@.len() - i,
        {
            assert(self.entry_views()[i as int].0 == self.entries@[i as int].0@);
            if self.entries[i].0.value == key.value {
                let ghost before = self.entry_views();
                self.entries.set(i, (key, value));
                proof {
                    assert forall|j: int| 0 <= j < before.len() implies self.entry_views()[j]
                        == before.update(i as int, (before[i as int].0, vv))[j] by {
                        if j != i {
                            assert(self.entries@[j] == old(self).entries@[j]);
                        }
                    }
                    lemma_map_of_update(before, i as int, vv);
                    assert(self.entry_views() =~= before.update(i as int, (before[i as int].0, vv)));
                }
                return;
            }
            i = i + 1;
        }
        let ghost before = self.entry_views();
        self.entries.push((key, value));
        proof {
            assert(self.entry_views() =~= before.push((kv, vv)));
            assert(self.entry_views().drop_last() =~= before);
        }
    }

    /// The value stored under `key`, if any.
    pub fn get(&self, key: &str) -> (r: Option<&Expression>)
        requires
            self.wf(),
        ensures
            match r {
                Some(e) => self@.contains_key(key@) && self@[key@] == e@,
                None => !self@.contains_key(key@),
            },
    {
        let wanted = key.to_owned();
        let mut i: usize = 0;
        while i < self.entries.len()
            invariant
                self.wf(),
                wanted@ == key@,
                i <= self.entries@.len(),
                forall|j: int| 0 <= j < i ==> self.entry_views()[j].0 != key@,
            decreases self.entries@.len() - i,
        {
            assert(self.entry_views()[i as int] == (
                self.entries@[i as int].0@,
                self.entries@[i as int].1@,
            ));
            if self.entries[i].0.value == wanted {
                proof {
                    lemma_map_of_at(self.entry_views(), i as int);
                }
                return Some(&self.entries[i].1);
            }
            i = i + 1;
        }
        proof {
            lemma_map_of_dom(self.entry_views(), key@);
        }
        None
    }

    /// How many entries the body holds.
    pub fn entry_count(&self) -> (r: usize)
        ensures
            r == self.entry_views().len(),
    {
        self.entries.len()
    }

    /// The entry at position `i`, in the order keys were first set.
    pub fn entry_at(&self, i: usize) -> (r: (&NameIdentifier, &Expression))
        requires
            i < self.entry_views().len(),
        ensures
            (r.0@, r.1@) == self.entry_views()[i as int],
    {
        let e = &self.entries[i];
        (&e.0, &e.1)
    }

    /// The number of distinct keys.
    pub fn len(&self) -> (r: usize)
        requires
            self.wf(),
        ensures
            r == self@.len(),
    {
        proof {
            lemma_map_of_len(self.entry_views());
        }
        self.entries.len()
    }
}

/// A declared provider; kept for later growth of the language.
#[derive(Debug)]
pub struct ProviderData {
    pub provider_name: String,
}

/// A declared type; kept for later growth of the language.
#[derive(Debug)]
pub struct TypeData {
    pub name: String,
}

/// A declared variable in its full form; kept for later growth of the language.
#[derive(Debug)]
pub struct VariableData {
    pub variable_name: String,
    pub type_path: ReferencePath,
    pub sensitive: bool,
    pub description: String,
}

#[derive(Debug)]
pub struct ResourceData {
    pub name: NameIdentifier,
    pub type_path: ReferencePath,
    pub body: Option<ResourceBody>,
    pub class: ResourceClass,
    pub is_scoped: bool,
}

pub struct ResourceDataView {
    pub name: Seq<char>,
    pub type_path: Seq<ReferenceView>,
    pub body: Option<Map<Seq<char>, ExpressionView>>,
    pub class: ResourceClass,
    pub is_scoped: bool,
}

pub open spec fn body_view(b: Option<ResourceBody>) -> Option<Map<Seq<char>, ExpressionView>> {
    match b {
        Some(m) => Some(m@),
        None => None,
    }
}

pub open spec fn body_wf(b: Option<ResourceBody>) -> bool {
    match b {
        Some(m) => m.wf(),
        None => true,
    }
}

impl View for ResourceData {
    type V = ResourceDataView;

    open spec fn view(&self) -> ResourceDataView {
        ResourceDataView {
            name: self.name@,
            type_path: self.type_path@,
            body: body_view(self.body),
            class: self.class,
            is_scoped: self.is_scoped,
        }
    }
}

impl ResourceData {
    pub open spec fn wf(&self) -> bool {
        body_wf(self.body)
    }

    /// Builds a resource; it is scoped iff `Scoped` is among the modifiers.
    pub fn new(
        name: NameIdentifier,
        type_path: ReferencePath,
        body: Option<ResourceBody>,
        class: ResourceClass,
        modifiers: &Vec<ResourceModifier>,
    ) -> (r: ResourceData)
        ensures
            r.name == name,
            r.type_path == type_path,
            r.body == body,
            r.class == class,
            r.is_scoped == modifiers@.contains(ResourceModifier::Scoped),
    {
        let mut is_scoped = false;
        let mut i: usize = 0;
        while i < modifiers.len()
            invariant
                i <= modifiers@.len(),
                is_scoped == modifiers@.subrange(0, i as int).contains(ResourceModifier::Scoped),
            decreases modifiers@.len() - i,
        {
            proof {
                assert(modifiers@.subrange(0, i + 1) =~= modifiers@.subrange(0, i as int).push(
                    modifiers@[i as int],
                ));
            }
            match modifiers[i] {
                ResourceModifier::Scoped => {
                    assert(modifiers@.subrange(0, i + 1)[i as int] == ResourceModifier::Scoped);
                    is_scoped = true;
                },
            }
            i = i + 1;
        }
        assert(modifiers@.subrange(0, modifiers@.len() as int) =~= modifiers@);
        ResourceData { name, type_path, body, class, is_scoped }
    }
}

#[derive(Debug)]
pub enum Statement {
    Type(TypeData),
    Provider(ProviderData),
    Resource(ResourceData),
    Variable(VariableData),
}

pub enum StatementView {
    Type(Seq<char>),
    Provider(Seq<char>),
    Resource(ResourceDataView),
    Variable(Seq<char>, Seq<ReferenceView>, bool, Seq<char>),
}

impl Statement {
    pub open spec fn wf(&self) -> bool {
        match self {
            Statement::Resource(r) => r.wf(),
            _ => true,
        }
    }
}

impl View for Statement {
    type V = StatementView;

    open spec fn view(&self) -> StatementView {
        match self {
            Statement::Type(t) => StatementView::Type(t.name@),
            Statement::Provider(p) => StatementView::Provider(p.provider_name@),
            Statement::Resource(r) => StatementView::Resource(r@),
            Statement::Variable(v) => StatementView::Variable(
                v.variable_name@,
                v.type_path@,
                v.sensitive,
                v.description@,
            ),
        }
    }
}

/// The statements of a program, in source order.
#[derive(Debug)]
pub struct SyntaxTree {
    pub statements: Vec<Statement>,
}

impl SyntaxTree {
    pub open spec fn wf(&self) -> bool {
        forall|k: int| 0 <= k < self.statements@.len() ==> (#[trigger] self.statements@[k]).wf()
    }
}

impl View for SyntaxTree {
    type V = Seq<StatementView>;

    open spec fn view(&self) -> Seq<StatementView> {
        self.statements@.map_values(|st: Statement| st@)
    }
}

fn names_equal(a: &Vec<NameIdentifier>, b: &Vec<NameIdentifier>) -> (r: bool)
    ensures
        r == (names_view(a@) == names_view(b@)),
{
    let n = a.len();
    if n != b.len() {
        assert(names_view(a@).len() != names_view(b@).len());
        return false;
    }
    let mut i: usize = 0;
    while i < n
        invariant
            n == a@.len(),
            n == b@.len(),
            i <= n,
            forall|j: int| 0 <= j < i ==> a@[j]@ == b@[j]@,
        decreases n - i,
    {
        if a[i].value != b[i].value {
            assert(names_view(a@)[i as int] != names_view(b@)[i as int]);
            return false;
        }
        i = i + 1;
    }
    assert(names_view(a@) =~= names_view(b@));
    true
}

impl PartialEq for ReferencePath {
    fn eq(&self, other: &ReferencePath) -> (r: bool) {
        let n = self.sequence.len();
        if n != other.sequence.len() {
            assert(self@.len() != other@.len());
            return false;
        }
        let mut i: usize = 0;
        while i < n
            invariant
                n == self.sequence@.len(),
                n == other.sequence@.len(),
                i <= n,
                forall|j: int| 0 <= j < i ==> self.sequence@[j]@ == other.sequence@[j]@,
            decreases n - i,
        {
            if !(self.sequence[i] == other.sequence[i]) {
                assert(self@[i as int] != other@[i as int]);
                return false;
            }
            i = i + 1;
        }
        assert(self@ =~= other@);
        true
    }
}

impl vstd::std_specs::cmp::PartialEqSpecImpl for ReferencePath {
    open spec fn obeys_eq_spec() -> bool {
        true
    }

    open spec fn eq_spec(&self, other: &ReferencePath) -> bool {
        self@ == other@
    }
}

impl Eq for ReferencePath {}

impl PartialEq for ObjectPath {
    fn eq(&self, other: &ObjectPath) -> (r: bool) {
        if !(self.object == other.object) {
            return false;
        }
        match (&self.member_path, &other.member_path) {
            (Some(a), Some(b)) => names_equal(a, b),
            (None, None) => true,
            _ => false,
        }
    }
}

impl vstd::std_specs::cmp::PartialEqSpecImpl for ObjectPath {
    open spec fn obeys_eq_spec() -> bool {
        true
    }

    open spec fn eq_spec(&self, other: &ObjectPath) -> bool {
        self@ == other@
    }
}

impl Eq for ObjectPath {}

impl PartialEq for Number {
    fn eq(&self, other: &Number) -> (r: bool) {
        match (self, other) {
            (Number::Integer(a), Number::Integer(b)) => *a == *b,
            (Number::FloatingPoint(a), Number::FloatingPoint(b)) => *a == *b,
            _ => false,
        }
    }
}

impl vstd::std_specs::cmp::PartialEqSpecImpl for Number {
    open spec fn obeys_eq_spec() -> bool {
        true
    }

    open spec fn eq_spec(&self, other: &Number) -> bool {
        self@ == other@
    }
}

impl Eq for Number {}

impl PartialEq for Literal {
    fn eq(&self, other: &Literal) -> (r: bool) {
        match (self, other) {
            (Literal::Boolean(a), Literal::Boolean(b)) => *a == *b,
            (Literal::String(a), Literal::String(b)) => *a == *b,
            (Literal::Number(a), Literal::Number(b)) => a == b,
            _ => false,
        }
    }
}

impl vstd::std_specs::cmp::PartialEqSpecImpl for Literal {
    open spec fn obeys_eq_spec() -> bool {
        true
    }

    open spec fn eq_spec(&self, other: &Literal) -> bool {
        self@ == other@
    }
}

impl Eq for Literal {}

impl PartialEq for Expression {
    fn eq(&self, other: &Expression) -> (r: bool) {
        match (self, other) {
            (Expression::Literal(a), Expression::Literal(b)) => a == b,
            (Expression::Reference(a), Expression::Reference(b)) => a == b,
            (Expression::Object(a), Expression::Object(b)) => a == b,
            _ => false,
        }
    }
}

impl vstd::std_specs::cmp::PartialEqSpecImpl for Expression {
    open spec fn obeys_eq_spec() -> bool {
        true
    }

    open spec fn eq_spec(&self, other: &Expression) -> bool {
        self@ == other@
    }
}

impl Eq for Expression {}

/// The last entry for a key gives its value.
pub proof fn lemma_map_of_last(s: Seq<(Seq<char>, ExpressionView)>, j: int)
    requires
        0 <= j < s.len(),
        forall|m: int| j < m < s.len() ==> s[m].0 != s[j].0,
    ensures
        map_of(s).contains_key(s[j].0),
        map_of(s)[s[j].0] == s[j].1,
    decreases s.len(),
{
    if j < s.len() - 1 {
        let t = s.drop_last();
        assert forall|m: int| j < m < t.len() implies t[m].0 != t[j].0 by {
            assert(t[m] == s[m]);
        }
        lemma_map_of_last(t, j);
    }
}

impl ResourceBody {
    /// Where the last entry for `key` stands.
    fn last_index(&self, key: &String) -> (r: Option<usize>)
        ensures
            match r {
                Some(j) => j < self.entry_views().len() && self.entry_views()[j as int].0 == key@
                    && forall|m: int|
                    j < m < self.entry_views().len() ==> self.entry_views()[m].0 != key@,
                None => forall|m: int|
                    0 <= m < self.entry_views().len() ==> self.entry_views()[m].0 != key@,
            },
    {
        let mut i = self.entries.len();
        while i > 0
            invariant
                i <= self.entries@.len(),
                forall|m: int| i <= m < self.entries@.len() ==> self.entry_views()[m].0 != key@,
            decreases i,
        {
            i = i - 1;
            assert(self.entry_views()[i as int].0 == self.entries@[i as int].0@);
            if self.entries[i].0.value == *key {
                return Some(i);
            }
        }
        None
    }

    /// Each key of `self` holds the same value in `other`.
    pub open spec fn covers(&self, other: &ResourceBody) -> bool {
        forall|k: Seq<char>| #[trigger]
            self@.contains_key(k) ==> other@.contains_key(k) && other@[k] == self@[k]
    }

    /// Whether each key of `self` holds the same value in `other`.
    fn covered_by(&self, other: &ResourceBody) -> (r: bool)
        ensures
            r == self.covers(other),
    {
        let mut i: usize = 0;
        while i < self.entries.len()
            invariant
                i <= self.entries@.len(),
                forall|j: int|
                    0 <= j < i ==> other@.contains_key(#[trigger] self.entry_views()[j].0)
                        && other@[self.entry_views()[j].0] == self@[self.entry_views()[j].0],
            decreases self.entries@.len() - i,
        {
            let key = &self.entries[i].0.value;
            let ghost k = key@;
            assert(self.entry_views()[i as int].0 == k);
            proof {
                lemma_map_of_dom(self.entry_views(), k);
            }
            let ls = match self.last_index(key) {
                Some(j) => j,
                None => {
                    return false;
                },
            };
            proof {
                lemma_map_of_last(self.entry_views(), ls as int);
            }
            let lo = match other.last_index(key) {
                Some(j) => j,
                None => {
                    proof {
                        lemma_map_of_dom(other.entry_views(), k);
                        assert(self@.contains_key(k) && !other@.contains_key(k));
                assert(!self.covers(other));
                    }
                    return false;
                },
            };
            proof {
                lemma_map_of_last(other.entry_views(), lo as int);
                assert(self.entry_views()[ls as int].1 == self.entries@[ls as int].1@);
                assert(other.entry_views()[lo as int].1 == other.entries@[lo as int].1@);
            }
            if !(self.entries[ls].1 == other.entries[lo].1) {
                assert(self@.contains_key(k) && other@[k] != self@[k]);
                assert(!self.covers(other));
                return false;
            }
            i = i + 1;
        }
        assert forall|k: Seq<char>| #[trigger] self@.contains_key(k) implies other@.contains_key(k)
            && other@[k] == self@[k] by {
            lemma_map_of_dom(self.entry_views(), k);
            let j = choose|j: int| 0 <= j < self.entry_views().len() && self.entry_views()[j].0 == k;
            assert(other@.contains_key(self.entry_views()[j].0) && other@[self.entry_views()[j].0]
                == self@[self.entry_views()[j].0]);
        }
        true
    }
}

impl PartialEq for ResourceBody {
    fn eq(&self, other: &ResourceBody) -> (r: bool) {
        let a = self.covered_by(other);
        let b = other.covered_by(self);
        let r = a && b;
        proof {
            if r {
                assert forall|k: Seq<char>| #[trigger] self@.contains_key(k) <==> other@.contains_key(k) by {
                    if self@.contains_key(k) {
                        assert(other@.contains_key(k));
                    }
                    if other@.contains_key(k) {
                        assert(self@.contains_key(k));
                    }
                }
                assert(self@ =~= other@);
            }
        }
        r
    }
}

impl vstd::std_specs::cmp::PartialEqSpecImpl for ResourceBody {
    open spec fn obeys_eq_spec() -> bool {
        true
    }

    open spec fn eq_spec(&self, other: &ResourceBody) -> bool {
        self@ == other@
    }
}

impl Eq for ResourceBody {}

} // verus!
