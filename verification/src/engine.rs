//! A prepared rule set, ready to apply to any number of sources: everything
//! checkable before a source is read is checked once, when the set is built.

use crate::prefilter::{admits, required, spec_required, Filter};
use crate::prepare::{bindings_view, prepare_with, spec_bindings, spec_prepare_with, Case, Prepared};
use crate::rule::{
    constraint_views, contained_from, malformed_text, prepared_is, rule_path, spec_class_anchor,
    spec_constant_captures, validation_error, contains_texts, bound_names, Rule, RuleError,
};
use crate::text::{ascii_chars, cat, opt_view, str_eq, string_views};
use crate::metavar::spec_scan;
use vstd::prelude::*;
use crate::hierarchy::{byte_views, reach, reach_fix, reach_start, spec_from_collected, Hierarchy, HierarchyView};
use vstd::string::StringSliceAdditionalSpecFns;

verus! {

/// `offset` lies in a scope that declares `name` among its locals.
pub open spec fn spec_shadowed(scopes: Seq<(usize, usize, Vec<String>)>, offset: usize, name: Seq<char>) -> bool {
    exists|k: int|
        0 <= k < scopes.len() && scopes[k].0 <= offset < scopes[k].1 && #[trigger] string_views(
            scopes[k].2@,
        ).contains(name)
}

fn declares(locals: &Vec<String>, name: &str) -> (r: bool)
    ensures
        r == string_views(locals@).contains(name@),
{
    let ghost v = string_views(locals@);
    let mut k: usize = 0;
    while k < locals.len()
        invariant
            k <= locals@.len(),
            v == string_views(locals@),
            forall|j: int| 0 <= j < k ==> v[j] != name@,
        decreases locals@.len() - k,
    {
        if str_eq(locals[k].as_str(), name) {
            assert(v[k as int] == name@);
            return true;
        }
        k += 1;
    }
    false
}

/// Whether `name` is already a local where `offset` sits: some scope whose
/// byte range holds the offset declares it. A rewrite that introduces such a
/// name produces a collision -- `full_name = full_name` -- which parses, runs,
/// and means something else.
pub fn shadowed(scopes: &Vec<(usize, usize, Vec<String>)>, offset: usize, name: &str) -> (r: bool)
    ensures
        r == spec_shadowed(scopes@, offset, name@),
{
    let mut k: usize = 0;
    while k < scopes.len()
        invariant
            k <= scopes@.len(),
            forall|j: int|
                0 <= j < k ==> !(scopes@[j].0 <= offset < scopes@[j].1 && #[trigger] string_views(
                    scopes@[j].2@,
                ).contains(name@)),
        decreases scopes@.len() - k,
    {
        let (start, end, locals) = (scopes[k].0, scopes[k].1, &scopes[k].2);
        if offset >= start && offset < end && declares(locals, name) {
            return true;
        }
        k += 1;
    }
    false
}

/// A statement at the top level of a parsed program, as far as building a
/// rule set asks: a method definition, a call by some name, or anything else.
pub enum Statement {
    Def,
    Call(Vec<u8>),
    Other,
}

pub enum StatementView {
    Def,
    Call(Seq<u8>),
    Other,
}

pub open spec fn statement_views(v: Seq<Statement>) -> Seq<StatementView> {
    v.map_values(
        |s: Statement|
            match s {
                Statement::Def => StatementView::Def,
                Statement::Call(name) => StatementView::Call(name@),
                Statement::Other => StatementView::Other,
            },
    )
}

/// The top-level statements the parser reads from a source.
pub uninterp spec fn prism_statements(source: Seq<u8>) -> Seq<StatementView>;

/// `ruby_prism::parse`, reduced to the top-level statements of the program:
/// each a definition, a call and its name, or something else. The parse
/// depends on the source alone.
#[verifier::external_body]
fn statements(source: &str) -> (r: Vec<Statement>)
    ensures
        statement_views(r@) == prism_statements(source.spec_bytes()),
{
    let parsed = ruby_prism::parse(source.as_bytes());
    let root = parsed.node();
    let Some(program) = root.as_program_node() else { return Vec::new() };
    program.statements().body().iter().map(|node| match node {
        ruby_prism::Node::DefNode { .. } => Statement::Def,
        ruby_prism::Node::CallNode { .. } => match node.as_call_node() {
            Some(call) => Statement::Call(call.name().as_slice().to_vec()),
            None => Statement::Other,
        },
        _ => Statement::Other,
    }).collect()
}

/// Whether a call's name is one that defines methods: `attr_reader :name`
/// moves a name just as `def` does.
pub open spec fn defining_call(name: Seq<u8>) -> bool {
    exists|k: int|
        0 <= k < crate::residue::definers().len() && vstd::utf8::encode_utf8(
            #[trigger] crate::residue::definers()[k],
        ) == name
}

/// Whether a pattern, read as a single statement, rewrites a definition of a
/// method: a `def`, or a call to a method-defining macro. A placeholder never
/// carries a macro's name, so a call by such a name is never a metavariable.
pub open spec fn defines_a_method(statements: Seq<StatementView>) -> bool {
    statements.len() == 1 && match statements[0] {
        StatementView::Def => true,
        StatementView::Call(name) => defining_call(name),
        StatementView::Other => false,
    }
}

pub(crate) fn is_defining_call(name: &Vec<u8>) -> (r: bool)
    ensures
        r == defining_call(name@),
{
    let names = [
        "attr",
        "attr_reader",
        "attr_accessor",
        "attr_writer",
        "define_method",
        "alias_method",
        "class_attribute",
        "store_accessor",
        "alias_attribute",
        "enum",
    ];
    proof {
        reveal_strlit("attr");
        reveal_strlit("attr_reader");
        reveal_strlit("attr_accessor");
        reveal_strlit("attr_writer");
        reveal_strlit("define_method");
        reveal_strlit("alias_method");
        reveal_strlit("class_attribute");
        reveal_strlit("store_accessor");
        reveal_strlit("alias_attribute");
        reveal_strlit("enum");
    }
    let mut k: usize = 0;
    while k < 10
        invariant
            k <= 10,
            names@.len() == 10,
            forall|j: int| 0 <= j < 10 ==> names@[j]@ == crate::residue::definers()[j],
            forall|j: int|
                0 <= j < k ==> vstd::utf8::encode_utf8(#[trigger] crate::residue::definers()[j]) != name@,
        decreases 10 - k,
    {
        if crate::text::bytes_eq(names[k].as_bytes(), name.as_slice()) {
            assert(vstd::utf8::encode_utf8(crate::residue::definers()[k as int]) == name@);
            return true;
        }
        k += 1;
    }
    false
}

/// The pattern bytes of a rule.
pub open spec fn pattern_bytes(r: Rule) -> Seq<u8> {
    vstd::utf8::encode_utf8(r.pattern@)
}

/// Preparing a rule's pattern, seeded with the captures it says are constants.
pub open spec fn rule_prepared(r: Rule) -> Result<(Seq<u8>, Seq<Case>), Seq<char>> {
    spec_prepare_with(pattern_bytes(r), spec_constant_captures(constraint_views(r.constraints@)))
}

/// The names a prepared pattern binds.
pub open spec fn named(b: Seq<(Seq<char>, (Option<Seq<char>>, crate::metavar::Arity))>) -> Seq<Seq<char>>
    decreases b.len(),
{
    if b.len() == 0 {
        Seq::empty()
    } else {
        match b.last().1.0 {
            Some(n) => named(b.drop_last()).push(n),
            None => named(b.drop_last()),
        }
    }
}

/// Why a rule's pattern is refused: it does not prepare, it is not a single
/// statement, or the rule around it is invalid.
pub open spec fn pattern_problem(r: Rule) -> Option<Seq<char>> {
    match rule_prepared(r) {
        Err(m) => Some("pattern is not valid Ruby: "@ + m),
        Ok((src, cases)) => if prism_statements(src).len() != 1 {
            Some("a pattern must be a single expression: "@ + r.pattern@)
        } else {
            match validation_error(r.view(), named(spec_bindings(spec_scan(pattern_bytes(r)), cases))) {
                Some(m) => Some(malformed_text(rule_path(r.view()), m)),
                None => None,
            }
        },
    }
}

/// The first rule from `k` on whose `contains:` sub-patterns do not prepare.
pub open spec fn contained_problem(rs: Seq<Rule>, k: int) -> Option<Seq<char>>
    decreases rs.len() - k,
{
    if k < 0 || k >= rs.len() {
        None
    } else {
        match contained_from(constraint_views(rs[k].constraints@), 0) {
            Err((path, message)) => Some(malformed_text(path, message)),
            Ok(_) => contained_problem(rs, k + 1),
        }
    }
}

/// The first rule from `k` on whose pattern is refused.
pub open spec fn first_pattern_problem(rs: Seq<Rule>, k: int) -> Option<Seq<char>>
    decreases rs.len() - k,
{
    if k < 0 || k >= rs.len() {
        None
    } else {
        match pattern_problem(rs[k]) {
            Some(m) => Some(m),
            None => first_pattern_problem(rs, k + 1),
        }
    }
}

/// Why a rule set is refused: every rule's sub-patterns are checked first,
/// then each rule's own pattern in order.
pub open spec fn engine_problem(rs: Seq<Rule>) -> Option<Seq<char>> {
    match contained_problem(rs, 0) {
        Some(m) => Some(m),
        None => first_pattern_problem(rs, 0),
    }
}

/// Rules whose patterns and sub-patterns fit the preparation's arithmetic.
pub open spec fn preparable(rs: Seq<Rule>) -> bool {
    forall|k: int|
        0 <= k < rs.len() ==> {
            &&& 29 * pattern_bytes(#[trigger] rs[k]).len() < usize::MAX
            &&& forall|j: int|
                0 <= j < rs[k].constraints@.len() && (#[trigger] rs[k].constraints@[j]).1.contains is Some ==> 29
                    * vstd::utf8::encode_utf8(rs[k].constraints@[j].1.contains->0@).len() < usize::MAX
        }
}

/// A prepared pattern is what preparing the rule gave.
pub open spec fn prepared_for(r: Rule, p: Prepared) -> bool {
    match rule_prepared(r) {
        Ok((src, cases)) => vstd::utf8::encode_utf8(p.source@) == src && bindings_view(p.bindings@) == spec_bindings(
            spec_scan(pattern_bytes(r)),
            cases,
        ),
        Err(_) => false,
    }
}

/// The sub-patterns kept for a rule are what preparing its `contains:`
/// texts gave.
pub open spec fn contained_for(r: Rule, v: Seq<(String, Prepared)>) -> bool {
    match contained_from(constraint_views(r.constraints@), 0) {
        Ok(all) => v.len() == all.len() && forall|j: int|
            0 <= j < all.len() ==> prepared_is(#[trigger] v[j], all[j], contains_texts(constraint_views(r.constraints@))[j]),
        Err(_) => false,
    }
}

/// The words of a pattern no match can lack.
pub open spec fn required_words(pattern: Seq<char>) -> Seq<Seq<char>> {
    spec_required(vstd::utf8::encode_utf8(pattern)).map_values(|w: Seq<u8>| ascii_chars(w))
}

/// The words in `a` that are not in `b`, in order.
pub open spec fn words_not_in(a: Seq<Seq<char>>, b: Seq<Seq<char>>) -> Seq<Seq<char>>
    decreases a.len(),
{
    if a.len() == 0 {
        Seq::empty()
    } else if b.contains(a.last()) {
        words_not_in(a.drop_last(), b)
    } else {
        words_not_in(a.drop_last(), b).push(a.last())
    }
}

/// The identifiers a rule's template brings in that its pattern did not have.
pub open spec fn introduced_by(r: Rule) -> Seq<Seq<char>> {
    match r.rewrite {
        Some(t) => words_not_in(required_words(t@), required_words(r.pattern@)),
        None => Seq::empty(),
    }
}

/// The first class a rule from `k` on is about.
pub open spec fn first_anchor(rs: Seq<Rule>, k: int) -> Option<Seq<char>>
    decreases rs.len() - k,
{
    if k < 0 || k >= rs.len() {
        None
    } else {
        match spec_class_anchor(rs[k].view()) {
            Some(c) => Some(c),
            None => first_anchor(rs, k + 1),
        }
    }
}

/// Whether some rule narrows a capture by what its receiver resolves to.
pub open spec fn narrows_somewhere(rs: Seq<Rule>) -> bool {
    exists|k: int, j: int|
        0 <= k < rs.len() && 0 <= j < rs[k].constraints@.len() && ((#[trigger] rs[k].constraints@[j]).1.receiver_type
            is Some || rs[k].constraints@[j].1.type_not is Some)
}

proof fn lemma_named(b: Seq<(String, crate::prepare::Binding)>)
    ensures
        bound_names(b) == named(bindings_view(b)),
    decreases b.len(),
{
    if b.len() > 0 {
        lemma_named(b.drop_last());
        assert(bindings_view(b.drop_last()) =~= bindings_view(b).drop_last());
    }
}

/// A prepared rule set.
pub struct Engine {
    rules: Vec<Rule>,
    prepareds: Vec<Prepared>,
    /// Sub-patterns for `contains:`, prepared once per rule.
    contained: Vec<Vec<(String, Prepared)>>,
    /// One prefilter per rule.
    filters: Vec<Filter>,
    /// Whether the set moves a definition, which is what makes an account of
    /// what it left behind meaningful.
    claims_completeness: bool,
    /// No rule narrows by receiver, so matches are tallied by receiver.
    unnarrowed: bool,
    /// The class the set is about, when it names one.
    anchor: Option<String>,
    /// Per rule, the identifiers its template introduces.
    introduced: Vec<Vec<String>>,
}

impl Engine {
    pub closed spec fn spec_rules(&self) -> Seq<Rule> {
        self.rules@
    }

    pub closed spec fn spec_prepareds(&self) -> Seq<Prepared> {
        self.prepareds@
    }

    pub closed spec fn spec_contained(&self) -> Seq<Vec<(String, Prepared)>> {
        self.contained@
    }

    pub closed spec fn spec_claims(&self) -> bool {
        self.claims_completeness
    }

    pub closed spec fn spec_unnarrowed(&self) -> bool {
        self.unnarrowed
    }

    pub closed spec fn spec_anchor(&self) -> Option<Seq<char>> {
        opt_view(self.anchor)
    }

    pub closed spec fn spec_introduced(&self) -> Seq<Seq<Seq<char>>> {
        self.introduced@.map_values(|v: Vec<String>| string_views(v@))
    }

    /// Whether rule `k`'s prefilter lets a source through.
    pub closed spec fn admits_for(&self, k: int, src: Seq<u8>) -> bool {
        self.filters@[k].spec_admits(src)
    }

    pub closed spec fn filter_count(&self) -> nat {
        self.filters@.len()
    }

    /// Build a rule set, checking everything that can be checked before a
    /// source is read: every `contains:` sub-pattern prepares, then each
    /// pattern prepares, is one statement, and the rule around it is valid.
    pub fn new(rules: Vec<Rule>) -> (r: Result<Engine, String>)
        requires
            preparable(rules@),
        ensures
            match engine_problem(rules@) {
                Some(m) => r matches Err(e) && e@ == m,
                None => r matches Ok(e) && {
                    &&& e.spec_rules() == rules@
                    &&& e.spec_prepareds().len() == rules@.len()
                    &&& forall|k: int| 0 <= k < rules@.len() ==> prepared_for(rules@[k], #[trigger] e.spec_prepareds()[k])
                    &&& e.spec_contained().len() == rules@.len()
                    &&& forall|k: int| 0 <= k < rules@.len() ==> contained_for(rules@[k], (#[trigger] e.spec_contained()[k])@)
                    &&& e.spec_claims() == exists|k: int|
                        0 <= k < rules@.len() && defines_a_method(
                            prism_statements(vstd::utf8::encode_utf8((#[trigger] e.spec_prepareds()[k]).source@)),
                        )
                    &&& e.spec_unnarrowed() == !narrows_somewhere(rules@)
                    &&& e.spec_anchor() == first_anchor(rules@, 0)
                    &&& e.spec_introduced().len() == rules@.len()
                    &&& forall|k: int| 0 <= k < rules@.len() ==> #[trigger] e.spec_introduced()[k] == introduced_by(rules@[k])
                    &&& e.filter_count() == rules@.len()
                    &&& forall|k: int, src: Seq<u8>|
                        0 <= k < rules@.len() ==> #[trigger] e.admits_for(k, src) == admits(
                            spec_required(pattern_bytes(rules@[k])).map_values(|w: Seq<u8>| vstd::utf8::encode_utf8(ascii_chars(w))),
                            Seq::empty(),
                            src,
                        )
                },
            },
    {
        let ghost rs = rules@;
        let mut contained: Vec<Vec<(String, Prepared)>> = Vec::new();
        let mut k: usize = 0;
        while k < rules.len()
            invariant
                k <= rules@.len(),
                rs == rules@,
                preparable(rs),
                contained_problem(rs, 0) == contained_problem(rs, k as int),
                contained@.len() == k,
                forall|j: int| 0 <= j < k ==> contained_for(rs[j], (#[trigger] contained@[j])@),
            decreases rules@.len() - k,
        {
            match rules[k].contained() {
                Ok(v) => {
                    contained.push(v);
                },
                Err(e) => {
                    return Err(e.text());
                },
            }
            k += 1;
        }
        let mut prepareds: Vec<Prepared> = Vec::new();
        let mut k: usize = 0;
        while k < rules.len()
            invariant
                k <= rules@.len(),
                rs == rules@,
                preparable(rs),
                contained_problem(rs, 0) is None,
                first_pattern_problem(rs, 0) == first_pattern_problem(rs, k as int),
                prepareds@.len() == k,
                forall|j: int| 0 <= j < k ==> prepared_for(rs[j], #[trigger] prepareds@[j]),
            decreases rules@.len() - k,
        {
            let constants = rules[k].constant_captures();
            let p = match prepare_with(rules[k].pattern.as_str(), &constants) {
                Ok(p) => p,
                Err(e) => {
                    return Err(e.text());
                },
            };
            let top = statements(p.source.as_str());
            if top.len() != 1 {
                proof {
                    assert(statement_views(top@).len() == top@.len());
                }
                return Err(cat("a pattern must be a single expression: ", rules[k].pattern.as_str()));
            }
            proof {
                assert(statement_views(top@).len() == top@.len());
                lemma_named(p.bindings@);
            }
            match rules[k].validate(&p) {
                Ok(()) => {},
                Err(e) => {
                    return Err(e.text());
                },
            }
            prepareds.push(p);
            k += 1;
        }
        let claims = claims_of(&prepareds);
        let ghost pv = prepareds@;
        let unnarrowed = !any_narrowing(&rules);
        let introduced = introductions(&rules);
        let filters = prefilters(&rules);
        let anchor = anchor_of(&rules);
        let e = Engine { rules, prepareds, contained, filters, claims_completeness: claims, unnarrowed, anchor, introduced };
        proof {
            assert(e.spec_prepareds() == pv);
            if claims {
                let k = choose|k: int|
                    0 <= k < pv.len() && defines_a_method(
                        prism_statements(vstd::utf8::encode_utf8((#[trigger] pv[k]).source@)),
                    );
                assert(defines_a_method(prism_statements(vstd::utf8::encode_utf8(e.spec_prepareds()[k].source@))));
            } else {
                assert forall|k: int| 0 <= k < rs.len() implies !defines_a_method(
                    prism_statements(vstd::utf8::encode_utf8((#[trigger] e.spec_prepareds()[k]).source@)),
                ) by {
                    assert(e.spec_prepareds()[k] == pv[k]);
                }
            }
        }
        Ok(e)
    }

    /// The rules, in order.
    pub fn rules(&self) -> (r: &Vec<Rule>)
        ensures
            r@ == self.spec_rules(),
    {
        &self.rules
    }

    /// The identifiers the template of rule `k` brings in.
    pub fn introduced(&self, k: usize) -> (r: &Vec<String>)
        requires
            k < self.spec_introduced().len(),
        ensures
            string_views(r@) == self.spec_introduced()[k as int],
    {
        &self.introduced[k]
    }

    /// Each rule beside its prepared pattern, for a caller that drives its own
    /// scan.
    pub fn prepared(&self) -> (r: Vec<(&Rule, &Prepared)>)
        requires
            self.spec_prepareds().len() == self.spec_rules().len(),
        ensures
            r@.len() == self.spec_rules().len(),
            forall|k: int|
                0 <= k < r@.len() ==> (#[trigger] r@[k]).0 == self.spec_rules()[k] && r@[k].1 == self.spec_prepareds()[k],
    {
        let mut out: Vec<(&Rule, &Prepared)> = Vec::new();
        let mut k: usize = 0;
        while k < self.rules.len()
            invariant
                k <= self.rules@.len(),
                self.prepareds@.len() == self.rules@.len(),
                out@.len() == k,
                forall|j: int|
                    0 <= j < k ==> (#[trigger] out@[j]).0 == self.rules@[j] && out@[j].1 == self.prepareds@[j],
            decreases self.rules@.len() - k,
        {
            out.push((&self.rules[k], &self.prepareds[k]));
            k += 1;
        }
        out
    }

    /// Whether the set moves a definition, and so owes an account of what it
    /// left behind.
    pub fn claims_completeness(&self) -> (r: bool)
        ensures
            r == self.spec_claims(),
    {
        self.claims_completeness
    }

    /// What rule `index` asks of a match: its `where:` entries, its scope, and
    /// its `contains:` sub-patterns as given, parsed.
    pub fn criteria(&self, index: usize, contained: Vec<crate::verdict::Contained>) -> (r: crate::verdict::Criteria)
        requires
            index < self.spec_rules().len(),
        ensures
            crate::rule::constraint_views(r.constraints@) == crate::rule::constraint_views(
                self.spec_rules()[index as int].constraints@,
            ),
            r.scope.view() == self.spec_rules()[index as int].scope.view(),
            r.contained@ == contained@,
    {
        let rule = &self.rules[index];
        let mut constraints: Vec<(String, crate::rule::Constraint)> = Vec::new();
        let mut k: usize = 0;
        while k < rule.constraints.len()
            invariant
                k <= rule.constraints@.len(),
                crate::rule::constraint_views(constraints@) == crate::rule::constraint_views(
                    rule.constraints@.take(k as int),
                ),
            decreases rule.constraints@.len() - k,
        {
            let key = crate::text::owned(rule.constraints[k].0.as_str());
            let c = rule.constraints[k].1.duplicate();
            let ghost before = constraints@;
            constraints.push((key, c));
            assert(rule.constraints@.take(k + 1) =~= rule.constraints@.take(k as int).push(rule.constraints@[k as int]));
            assert(constraints@ =~= before.push((key, c)));
            assert(crate::rule::constraint_views(constraints@) =~= crate::rule::constraint_views(before).push(
                (rule.constraints@[k as int].0@, rule.constraints@[k as int].1.view()),
            ));
            assert(crate::rule::constraint_views(rule.constraints@.take(k + 1)) =~= crate::rule::constraint_views(
                rule.constraints@.take(k as int),
            ).push((rule.constraints@[k as int].0@, rule.constraints@[k as int].1.view())));
            assert(crate::rule::constraint_views(constraints@) =~= crate::rule::constraint_views(
                rule.constraints@.take(k + 1),
            ));
            k += 1;
        }
        assert(rule.constraints@.take(k as int) =~= rule.constraints@);
        let scope = crate::rule::Scope {
            inside: crate::text::clone_opt(&rule.scope.inside),
            singleton: rule.scope.singleton,
            subclasses: rule.scope.subclasses,
        };
        crate::verdict::Criteria { constraints, contained, scope }
    }

    /// Whether rule `k`'s literals let a source through.
    pub fn admits(&self, k: usize, bytes: &[u8]) -> (r: bool)
        requires
            k < self.filter_count(),
        ensures
            r == self.admits_for(k as int, bytes@),
    {
        self.filters[k].may_contribute(bytes)
    }

    /// Whether any rule needs this source read at all: the rules' literals are
    /// checked disjunctively.
    pub fn may_contribute(&self, bytes: &[u8]) -> (r: bool)
        ensures
            r == exists|k: int| 0 <= k < self.filter_count() && #[trigger] self.admits_for(k, bytes@),
    {
        let mut k: usize = 0;
        while k < self.filters.len()
            invariant
                k <= self.filters@.len(),
                forall|j: int| 0 <= j < k ==> !#[trigger] self.admits_for(j, bytes@),
            decreases self.filters@.len() - k,
        {
            if self.filters[k].may_contribute(bytes) {
                assert(self.admits_for(k as int, bytes@));
                return true;
            }
            k += 1;
        }
        false
    }
}

fn claims_of(prepareds: &Vec<Prepared>) -> (r: bool)
    ensures
        r == exists|k: int|
            0 <= k < prepareds@.len() && defines_a_method(
                prism_statements(vstd::utf8::encode_utf8((#[trigger] prepareds@[k]).source@)),
            ),
{
    let mut k: usize = 0;
    while k < prepareds.len()
        invariant
            k <= prepareds@.len(),
            forall|j: int|
                0 <= j < k ==> !defines_a_method(
                    prism_statements(vstd::utf8::encode_utf8((#[trigger] prepareds@[j]).source@)),
                ),
        decreases prepareds@.len() - k,
    {
        let top = statements(prepareds[k].source.as_str());
        let ghost tv = statement_views(top@);
        let defines = if top.len() == 1 {
            match &top[0] {
                Statement::Def => true,
                Statement::Call(name) => is_defining_call(name),
                Statement::Other => false,
            }
        } else {
            false
        };
        proof {
            assert(tv.len() == top@.len());
            if top@.len() == 1 {
                assert(tv[0] == match top@[0] {
                    Statement::Def => StatementView::Def,
                    Statement::Call(name) => StatementView::Call(name@),
                    Statement::Other => StatementView::Other,
                });
            }
        }
        if defines {
            return true;
        }
        k += 1;
    }
    false
}

fn any_narrowing(rules: &Vec<Rule>) -> (r: bool)
    ensures
        r == narrows_somewhere(rules@),
{
    let mut k: usize = 0;
    while k < rules.len()
        invariant
            k <= rules@.len(),
            forall|i: int, j: int|
                0 <= i < k && 0 <= j < rules@[i].constraints@.len() ==> !((#[trigger] rules@[i].constraints@[j]).1.receiver_type
                    is Some || rules@[i].constraints@[j].1.type_not is Some),
        decreases rules@.len() - k,
    {
        let mut j: usize = 0;
        while j < rules[k].constraints.len()
            invariant
                k < rules@.len(),
                j <= rules@[k as int].constraints@.len(),
                forall|i: int, q: int|
                    0 <= i < k && 0 <= q < rules@[i].constraints@.len() ==> !((#[trigger] rules@[i].constraints@[q]).1.receiver_type
                        is Some || rules@[i].constraints@[q].1.type_not is Some),
                forall|q: int|
                    0 <= q < j ==> !((#[trigger] rules@[k as int].constraints@[q]).1.receiver_type is Some
                        || rules@[k as int].constraints@[q].1.type_not is Some),
            decreases rules@[k as int].constraints@.len() - j,
        {
            if rules[k].constraints[j].1.narrows_by_receiver() {
                return true;
            }
            j += 1;
        }
        k += 1;
    }
    false
}

fn without(a: &Vec<String>, b: &Vec<String>) -> (r: Vec<String>)
    ensures
        string_views(r@) == words_not_in(string_views(a@), string_views(b@)),
{
    let ghost av = string_views(a@);
    let mut out: Vec<String> = Vec::new();
    let mut k: usize = 0;
    while k < a.len()
        invariant
            k <= a@.len(),
            av == string_views(a@),
            string_views(out@) == words_not_in(av.take(k as int), string_views(b@)),
        decreases a@.len() - k,
    {
        proof {
            assert(av.take(k + 1).drop_last() =~= av.take(k as int));
            assert(av.take(k + 1).last() == a@[k as int]@);
        }
        if !declares(b, a[k].as_str()) {
            let ghost was = string_views(out@);
            out.push(crate::text::owned(a[k].as_str()));
            proof {
                assert(string_views(out@) =~= was.push(a@[k as int]@));
            }
        }
        k += 1;
    }
    proof {
        assert(av.take(a@.len() as int) =~= av);
    }
    out
}

proof fn lemma_required_words(pattern: Seq<char>, out: Seq<String>)
    requires
        out.len() == spec_required(vstd::utf8::encode_utf8(pattern)).len(),
        forall|k: int|
            0 <= k < out.len() ==> #[trigger] out[k]@ == ascii_chars(spec_required(vstd::utf8::encode_utf8(pattern))[k]),
    ensures
        string_views(out) == required_words(pattern),
{
    assert(string_views(out) =~= required_words(pattern));
}

fn introductions(rules: &Vec<Rule>) -> (r: Vec<Vec<String>>)
    ensures
        r@.len() == rules@.len(),
        forall|k: int| 0 <= k < rules@.len() ==> string_views((#[trigger] r@[k])@) == introduced_by(rules@[k]),
{
    let mut out: Vec<Vec<String>> = Vec::new();
    let mut k: usize = 0;
    while k < rules.len()
        invariant
            k <= rules@.len(),
            out@.len() == k,
            forall|j: int| 0 <= j < k ==> string_views((#[trigger] out@[j])@) == introduced_by(rules@[j]),
        decreases rules@.len() - k,
    {
        match &rules[k].rewrite {
            Some(template) => {
                let had = required(rules[k].pattern.as_str());
                let brings = required(template.as_str());
                proof {
                    lemma_required_words(rules@[k as int].pattern@, had@);
                    lemma_required_words(template@, brings@);
                }
                out.push(without(&brings, &had));
            },
            None => {
                let none: Vec<String> = Vec::new();
                proof {
                    assert(string_views(none@) =~= Seq::<Seq<char>>::empty());
                }
                out.push(none);
            },
        }
        k += 1;
    }
    out
}

fn prefilters(rules: &Vec<Rule>) -> (r: Vec<Filter>)
    ensures
        r@.len() == rules@.len(),
        forall|k: int, src: Seq<u8>|
            0 <= k < rules@.len() ==> #[trigger] r@[k].spec_admits(src) == admits(
                spec_required(pattern_bytes(rules@[k])).map_values(|w: Seq<u8>| vstd::utf8::encode_utf8(ascii_chars(w))),
                Seq::empty(),
                src,
            ),
{
    let mut out: Vec<Filter> = Vec::new();
    let mut k: usize = 0;
    while k < rules.len()
        invariant
            k <= rules@.len(),
            out@.len() == k,
            forall|j: int, src: Seq<u8>|
                0 <= j < k ==> #[trigger] out@[j].spec_admits(src) == admits(
                    spec_required(pattern_bytes(rules@[j])).map_values(|w: Seq<u8>| vstd::utf8::encode_utf8(ascii_chars(w))),
                    Seq::empty(),
                    src,
                ),
        decreases rules@.len() - k,
    {
        let words = required(rules[k].pattern.as_str());
        let none: Vec<Vec<u8>> = Vec::new();
        let f = Filter::new(words.as_slice(), none.as_slice());
        proof {
            assert(words@.map_values(|s: String| crate::prefilter::string_bytes(s)) =~= spec_required(
                pattern_bytes(rules@[k as int]),
            ).map_values(|w: Seq<u8>| vstd::utf8::encode_utf8(ascii_chars(w))));
            assert(crate::prefilter::byte_views(none@) =~= Seq::<Seq<u8>>::empty());
        }
        out.push(f);
        k += 1;
    }
    out
}

fn anchor_of(rules: &Vec<Rule>) -> (r: Option<String>)
    ensures
        opt_view(r) == first_anchor(rules@, 0),
{
    let mut k: usize = 0;
    while k < rules.len()
        invariant
            k <= rules@.len(),
            first_anchor(rules@, 0) == first_anchor(rules@, k as int),
        decreases rules@.len() - k,
    {
        match rules[k].class_anchor() {
            Some(c) => {
                return Some(c);
            },
            None => {},
        }
        k += 1;
    }
    None
}

/// Whether a rule asks about subclasses, in its scope or in a constraint.
pub open spec fn asks_subclasses(r: Rule) -> bool {
    ||| r.scope.subclasses == Some(true)
    ||| exists|j: int| 0 <= j < r.constraints@.len() && (#[trigger] r.constraints@[j]).1.subclasses == Some(true)
}

/// The classes the first `k` constraints name for the hierarchy.
pub open spec fn constraint_roots(cs: Seq<(String, crate::rule::Constraint)>, k: int) -> Seq<Seq<char>>
    decreases k,
{
    if k <= 0 {
        Seq::empty()
    } else {
        constraint_roots(cs, k - 1) + crate::rule::spec_roots(cs[k - 1].1.view())
    }
}

/// The classes a rule names for the hierarchy: its scope's class, then each
/// constraint's.
pub open spec fn rule_roots(r: Rule) -> Seq<Seq<char>> {
    let scope = match r.scope.inside {
        Some(c) => seq![c@],
        None => Seq::empty(),
    };
    scope + constraint_roots(r.constraints@, r.constraints@.len() as int)
}

/// The classes the first `k` rules name for the hierarchy.
pub open spec fn all_roots(rs: Seq<Rule>, k: int) -> Seq<Seq<char>>
    decreases k,
{
    if k <= 0 {
        Seq::empty()
    } else {
        all_roots(rs, k - 1) + rule_roots(rs[k - 1])
    }
}

fn asks(r: &Rule) -> (b: bool)
    ensures
        b == asks_subclasses(*r),
{
    if r.scope.subclasses == Some(true) {
        return true;
    }
    let mut j: usize = 0;
    while j < r.constraints.len()
        invariant
            j <= r.constraints@.len(),
            r.scope.subclasses != Some(true),
            forall|q: int| 0 <= q < j ==> (#[trigger] r.constraints@[q]).1.subclasses != Some(true),
        decreases r.constraints@.len() - j,
    {
        if r.constraints[j].1.subclasses == Some(true) {
            return true;
        }
        j += 1;
    }
    false
}

fn roots_of(r: &Rule) -> (v: Vec<String>)
    ensures
        string_views(v@) == rule_roots(*r),
{
    let mut out: Vec<String> = Vec::new();
    if let Some(c) = &r.scope.inside {
        out.push(crate::text::owned(c.as_str()));
    }
    let ghost first = string_views(out@);
    proof {
        assert(first =~= match r.scope.inside {
            Some(c) => seq![c@],
            None => Seq::<Seq<char>>::empty(),
        });
    }
    let mut j: usize = 0;
    while j < r.constraints.len()
        invariant
            j <= r.constraints@.len(),
            string_views(out@) == first + constraint_roots(r.constraints@, j as int),
        decreases r.constraints@.len() - j,
    {
        let ghost before = string_views(out@);
        let mut more = r.constraints[j].1.hierarchy_roots();
        let ghost added = string_views(more@);
        out.append(&mut more);
        proof {
            assert(string_views(out@) =~= before + added);
            assert(first + constraint_roots(r.constraints@, j + 1) =~= first + constraint_roots(r.constraints@, j as int)
                + added);
        }
        j += 1;
    }
    out
}

/// What the rules need to know of the whole repository before any one source
/// is judged: the class hierarchy, and how many files were read for it.
pub struct Context {
    pub hierarchy: Hierarchy,
    pub parsed: usize,
}

impl Engine {
    /// The classes the class hierarchy is needed from, where some rule asks
    /// about subclasses: every class any rule names, in its scope or its
    /// constraints. `None` where no rule asks, and the hierarchy is not built
    /// at all.
    pub fn hierarchy_roots(&self) -> (r: Option<Vec<String>>)
        ensures
            r is Some <==> exists|k: int| 0 <= k < self.spec_rules().len() && asks_subclasses(
                #[trigger] self.spec_rules()[k],
            ),
            r matches Some(v) ==> string_views(v@) == all_roots(self.spec_rules(), self.spec_rules().len() as int),
    {
        let rules = self.rules();
        let mut wanted = false;
        let mut k: usize = 0;
        while k < rules.len()
            invariant
                k <= rules@.len(),
                wanted <==> exists|i: int| 0 <= i < k && asks_subclasses(#[trigger] rules@[i]),
            decreases rules@.len() - k,
        {
            if asks(&rules[k]) {
                wanted = true;
            }
            k += 1;
        }
        if !wanted {
            return None;
        }
        let mut out: Vec<String> = Vec::new();
        let mut k: usize = 0;
        while k < rules.len()
            invariant
                k <= rules@.len(),
                string_views(out@) == all_roots(rules@, k as int),
            decreases rules@.len() - k,
        {
            let ghost before = string_views(out@);
            let mut more = roots_of(&rules[k]);
            let ghost added = string_views(more@);
            out.append(&mut more);
            proof {
                assert(string_views(out@) =~= before + added);
            }
            k += 1;
        }
        Some(out)
    }

    /// The class hierarchy these rules need. Where some rule asks about
    /// subclasses, the part of it reachable from every class the rules name,
    /// read from the sources' trees (`trees[i]` is that of `sources[i]`,
    /// where it parses); otherwise an empty one, and nothing is read.
    pub fn context(&self, sources: &Vec<Vec<u8>>, trees: &Vec<Option<crate::tree::Tree>>) -> (r: Context)
        requires
            sources@.len() == trees@.len(),
        ensures
            (exists|k: int| 0 <= k < self.spec_rules().len() && asks_subclasses(#[trigger] self.spec_rules()[k]))
                ==> ({
                let fin = reach_fix(
                    reach_start(all_roots(self.spec_rules(), self.spec_rules().len() as int), sources@.len()),
                    byte_views(sources@),
                    trees@,
                );
                r.hierarchy@ == spec_from_collected(fin.all, fin.constants) && r.parsed == fin.parsed
            }),
            !(exists|k: int| 0 <= k < self.spec_rules().len() && asks_subclasses(#[trigger] self.spec_rules()[k]))
                ==> r.hierarchy@ == (HierarchyView {
                superclass: Seq::empty(),
                mixins: Seq::empty(),
                included: Seq::empty(),
                aliases: Seq::empty(),
                self_extended: Seq::empty(),
                refines: Seq::empty(),
                constants: Seq::empty(),
            }) && r.parsed == 0,
    {
        match self.hierarchy_roots() {
            Some(roots) => {
                let (hierarchy, parsed) = reach(&roots, sources, trees);
                Context { hierarchy, parsed }
            },
            None => Context { hierarchy: Hierarchy::new(), parsed: 0 },
        }
    }

    /// Whether the signature index is needed: some rule narrows by receiver.
    pub fn needs_signatures(&self) -> (r: bool)
        ensures
            r == narrows_somewhere(self.spec_rules()),
    {
        any_narrowing(self.rules())
    }
}

} // verus!
