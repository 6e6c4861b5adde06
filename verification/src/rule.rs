//! Rules: a pattern, an optional rewrite, and what a match must satisfy.
//!
//! Reading the YAML happens outside the library; what is decided here is what
//! a rule means once its fields are known -- which notation names a method,
//! the rule set a rename expands to, and which fixtures assert anything.

use crate::text::{
    cat, cat3, clone_opt, clone_strings, is_digit, is_lower, is_upper, is_word, opt_view, owned,
    slice_str, spec_digit, spec_lower, spec_trim, spec_upper, spec_word, starts_char, str_eq,
    string_views, trim,
};
use vstd::string::StrSliceExecFns;
use vstd::prelude::*;
use vstd::string::StringSliceAdditionalSpecFns;

verus! {

/// A node kind a capture may be constrained to. A closed set: an unknown
/// value is a rule bug, not a constraint that quietly never matches.
#[derive(Debug, Clone, Copy, PartialEq, Eq, Structural)]
pub enum NodeKind {
    Constant,
    Symbol,
    String,
    Integer,
    Array,
    Hash,
}

impl NodeKind {
    /// The spellings `is:` accepts.
    pub fn names() -> (r: [&'static str; 6])
        ensures
            r@[0]@ == "constant"@,
            r@[1]@ == "symbol"@,
            r@[2]@ == "string"@,
            r@[3]@ == "integer"@,
            r@[4]@ == "array"@,
            r@[5]@ == "hash"@,
    {
        ["constant", "symbol", "string", "integer", "array", "hash"]
    }
}

/// Which of a class's two method tables a constraint means.
#[derive(Debug, Clone, Copy, PartialEq, Eq, Structural)]
pub enum Kind {
    /// `Account#display_name`
    Instance,
    /// `Account.display_name`
    Class,
}

/// What a capture must satisfy beyond matching structurally.
#[derive(Debug, Default, Clone)]
pub struct Constraint {
    /// The capture must be one of these identifiers.
    pub name: Option<Vec<String>>,
    /// The capture must be none of these identifiers.
    pub name_not: Option<Vec<String>>,
    /// The capture's receiver must resolve to this class.
    pub receiver_type: Option<String>,
    /// The capture's receiver must resolve, and to none of these classes.
    pub type_not: Option<Vec<String>>,
    /// Whether `type:` means an instance or the class object.
    pub kind: Option<Kind>,
    /// Admit receivers whose class descends from `type:`.
    pub subclasses: Option<bool>,
    /// The capture must be this kind of node.
    pub is: Option<NodeKind>,
    /// The capture's literal content must be exactly this many characters.
    pub length: Option<usize>,
    /// The capture's subtree must contain a match of this pattern.
    pub contains: Option<String>,
    /// This capture must name the same identifier as another.
    pub same_name_as: Option<String>,
}

pub open spec fn opt_strings(v: Option<Vec<String>>) -> Option<Seq<Seq<char>>> {
    match v {
        Some(v) => Some(string_views(v@)),
        None => None,
    }
}

/// A constraint as plain values.
pub struct ConstraintView {
    pub name: Option<Seq<Seq<char>>>,
    pub name_not: Option<Seq<Seq<char>>>,
    pub receiver_type: Option<Seq<char>>,
    pub type_not: Option<Seq<Seq<char>>>,
    pub kind: Option<Kind>,
    pub subclasses: Option<bool>,
    pub is: Option<NodeKind>,
    pub length: Option<usize>,
    pub contains: Option<Seq<char>>,
    pub same_name_as: Option<Seq<char>>,
}

impl Constraint {
    pub open spec fn view(&self) -> ConstraintView {
        ConstraintView {
            name: opt_strings(self.name),
            name_not: opt_strings(self.name_not),
            receiver_type: opt_view(self.receiver_type),
            type_not: opt_strings(self.type_not),
            kind: self.kind,
            subclasses: self.subclasses,
            is: self.is,
            length: self.length,
            contains: opt_view(self.contains),
            same_name_as: opt_view(self.same_name_as),
        }
    }

    /// A constraint with no predicate at all.
    pub fn none() -> (c: Constraint)
        ensures
            c.view() == empty_constraint(),
    {
        Constraint {
            name: None,
            name_not: None,
            receiver_type: None,
            type_not: None,
            kind: None,
            subclasses: None,
            is: None,
            length: None,
            contains: None,
            same_name_as: None,
        }
    }

    /// Whether this constraint wants an instance receiver. Absent, `kind:`
    /// means instance, as Ruby's own `Account#name` notation does.
    pub fn wants_instance(&self) -> (r: bool)
        ensures
            r == (self.kind != Some(Kind::Class)),
    {
        !matches!(self.kind, Some(Kind::Class))
    }

    /// Whether this constraint resolves a receiver, and so needs the
    /// signature index and the hierarchy built.
    pub fn narrows_by_receiver(&self) -> (r: bool)
        ensures
            r == (self.receiver_type is Some || self.type_not is Some),
    {
        self.receiver_type.is_some() || self.type_not.is_some()
    }

    /// Class names whose descendants this constraint needs to know about:
    /// `type:`'s class, then every class `type_not:` excludes.
    pub fn hierarchy_roots(&self) -> (r: Vec<String>)
        ensures
            string_views(r@) == spec_roots(self.view()),
    {
        let mut out: Vec<String> = Vec::new();
        if let Some(t) = &self.receiver_type {
            out.push(owned(t.as_str()));
        }
        let ghost first = string_views(out@);
        if let Some(list) = &self.type_not {
            let mut k: usize = 0;
            while k < list.len()
                invariant
                    k <= list@.len(),
                    string_views(out@) =~= first + string_views(list@).take(k as int),
                decreases list@.len() - k,
            {
                let ghost before = out@;
                out.push(owned(list[k].as_str()));
                proof {
                    assert(string_views(out@) =~= string_views(before).push(list@[k as int]@));
                    assert(string_views(list@).take(k + 1) =~= string_views(list@).take(k as int).push(list@[k as int]@));
                }
                k += 1;
            }
            assert(string_views(list@).take(list@.len() as int) =~= string_views(list@));
        }
        proof {
            if self.receiver_type is None && self.type_not is None {
                assert(string_views(out@) =~= Seq::<Seq<char>>::empty());
            }
            if self.receiver_type is Some && self.type_not is None {
                assert(string_views(out@) =~= seq![self.receiver_type->0@]);
            }
            if self.receiver_type is None && self.type_not is Some {
                assert(first =~= Seq::<Seq<char>>::empty());
            }
            if self.receiver_type is Some && self.type_not is Some {
                assert(first =~= seq![self.receiver_type->0@]);
            }
        }
        out
    }

    /// A copy of this constraint.
    pub fn duplicate(&self) -> (c: Constraint)
        ensures
            c.view() == self.view(),
    {
        Constraint {
            name: clone_opt_list(&self.name),
            name_not: clone_opt_list(&self.name_not),
            receiver_type: clone_opt(&self.receiver_type),
            type_not: clone_opt_list(&self.type_not),
            kind: self.kind,
            subclasses: self.subclasses,
            is: self.is,
            length: self.length,
            contains: clone_opt(&self.contains),
            same_name_as: clone_opt(&self.same_name_as),
        }
    }
}

pub fn clone_opt_list(v: &Option<Vec<String>>) -> (r: Option<Vec<String>>)
    ensures
        opt_strings(r) == opt_strings(*v),
{
    match v {
        Some(list) => Some(clone_strings(list)),
        None => None,
    }
}

pub open spec fn empty_constraint() -> ConstraintView {
    ConstraintView {
        name: None,
        name_not: None,
        receiver_type: None,
        type_not: None,
        kind: None,
        subclasses: None,
        is: None,
        length: None,
        contains: None,
        same_name_as: None,
    }
}

/// The classes a constraint consults descent for.
pub open spec fn spec_roots(c: ConstraintView) -> Seq<Seq<char>> {
    let first = match c.receiver_type {
        Some(t) => seq![t],
        None => Seq::empty(),
    };
    match c.type_not {
        Some(list) => first + list,
        None => first,
    }
}

/// Constraints on the match as a whole rather than on one capture.
#[derive(Debug, Default, Clone)]
pub struct Scope {
    /// The match must sit lexically inside this class or module.
    pub inside: Option<String>,
    /// Restrict to singleton context -- inside `def self.x` or `class << self`.
    pub singleton: Option<bool>,
    /// Admit classes descending from `inside:`.
    pub subclasses: Option<bool>,
}

pub struct ScopeView {
    pub inside: Option<Seq<char>>,
    pub singleton: Option<bool>,
    pub subclasses: Option<bool>,
}

impl Scope {
    pub open spec fn view(&self) -> ScopeView {
        ScopeView { inside: opt_view(self.inside), singleton: self.singleton, subclasses: self.subclasses }
    }
}

/// One fixture: a snippet, and what the rule set should do to it.
#[derive(Debug, Default, Clone)]
pub struct Case {
    /// The snippet, evaluated as a whole Ruby file.
    pub input: String,
    /// The expected source afterwards, compared byte for byte.
    pub output: Option<String>,
    /// The snippet must come back byte-identical.
    pub unchanged: Option<bool>,
    /// How many findings a rule proposing no edit should report.
    pub finds: Option<usize>,
    /// How many occurrences the rule should be unable to account for.
    pub residue: Option<usize>,
}

pub struct CaseView {
    pub input: Seq<char>,
    pub output: Option<Seq<char>>,
    pub unchanged: Option<bool>,
    pub finds: Option<usize>,
    pub residue: Option<usize>,
}

/// Why a fixture asserts nothing, or asserts what its rule set cannot do.
pub open spec fn spec_check(c: CaseView, rewrites: bool, reports: bool, moves: bool) -> Result<(), Seq<char>> {
    if c.output is Some && c.unchanged is Some {
        Err("a case cannot claim both `output:` and `unchanged:`"@)
    } else if c.unchanged == Some(false) {
        Err("`unchanged: false` asserts nothing -- say what the output is"@)
    } else if c.output is None && c.unchanged is None && c.finds is None && c.residue is None {
        Err("this case asserts nothing -- add `output:`, `unchanged: true`, `finds:` or `residue:`"@)
    } else if c.finds is Some && !reports {
        Err("`finds:` needs a rule that proposes no edit; this set rewrites"@)
    } else if (c.output is Some || c.unchanged is Some) && !rewrites {
        Err("`output:`/`unchanged:` need a rule with `rewrite:`; this set only reports"@)
    } else if c.residue is Some && !moves {
        Err("`residue:` needs a rule that moves a name; this set moves none"@)
    } else {
        Ok(())
    }
}

pub open spec fn result_view(r: Result<(), String>) -> Result<(), Seq<char>> {
    match r {
        Ok(()) => Ok(()),
        Err(e) => Err(e@),
    }
}

impl Case {
    pub open spec fn view(&self) -> CaseView {
        CaseView {
            input: self.input@,
            output: opt_view(self.output),
            unchanged: self.unchanged,
            finds: self.finds,
            residue: self.residue,
        }
    }

    /// A copy of this case.
    pub fn duplicate(&self) -> (c: Case)
        ensures
            c.view() == self.view(),
    {
        Case {
            input: owned(self.input.as_str()),
            output: clone_opt(&self.output),
            unchanged: self.unchanged,
            finds: self.finds,
            residue: self.residue,
        }
    }

    /// What this case claims, or why it claims nothing. `rewrites`,
    /// `reports` and `moves` describe the whole rule set the case runs
    /// against: whether some rule rewrites, whether some rule only reports,
    /// and whether some rule moves a method's name, which is what a
    /// `residue:` count is about.
    pub fn check(&self, rewrites: bool, reports: bool, moves: bool) -> (r: Result<(), String>)
        ensures
            result_view(r) == spec_check(self.view(), rewrites, reports, moves),
    {
        if self.output.is_some() && self.unchanged.is_some() {
            return Err(owned("a case cannot claim both `output:` and `unchanged:`"));
        }
        if self.unchanged == Some(false) {
            return Err(owned("`unchanged: false` asserts nothing -- say what the output is"));
        }
        if self.output.is_none() && self.unchanged.is_none() && self.finds.is_none()
            && self.residue.is_none() {
            return Err(
                owned(
                    "this case asserts nothing -- add `output:`, `unchanged: true`, `finds:` or `residue:`",
                ),
            );
        }
        if self.finds.is_some() && !reports {
            return Err(owned("`finds:` needs a rule that proposes no edit; this set rewrites"));
        }
        if (self.output.is_some() || self.unchanged.is_some()) && !rewrites {
            return Err(
                owned("`output:`/`unchanged:` need a rule with `rewrite:`; this set only reports"),
            );
        }
        if self.residue.is_some() && !moves {
            return Err(owned("`residue:` needs a rule that moves a name; this set moves none"));
        }
        Ok(())
    }
}

/// A rule: a pattern, an optional rewrite, and what a match must satisfy.
#[derive(Debug, Default)]
pub struct Rule {
    /// What to call this rule when reporting which one fired.
    pub id: Option<String>,
    /// One line on what the rule does.
    pub description: Option<String>,
    /// The structural pattern, in Ruby with `$METAVAR` placeholders.
    pub pattern: String,
    /// The replacement template. Absent for a find-only rule.
    pub rewrite: Option<String>,
    /// Constraints source syntax cannot express, keyed by metavariable.
    pub constraints: Vec<(String, Constraint)>,
    /// Constraints on the match as a whole.
    pub scope: Scope,
    /// The lowest Ruby version this rule's output parses on.
    pub ruby: Option<String>,
    /// Why this rule can change behaviour, when it can.
    pub unsafe_because: Option<String>,
    /// Fixtures pinning what this rule does.
    pub tests: Vec<Case>,
}

pub struct RuleView {
    pub id: Option<Seq<char>>,
    pub description: Option<Seq<char>>,
    pub pattern: Seq<char>,
    pub rewrite: Option<Seq<char>>,
    pub constraints: Seq<(Seq<char>, ConstraintView)>,
    pub scope: ScopeView,
    pub ruby: Option<Seq<char>>,
    pub unsafe_because: Option<Seq<char>>,
    pub tests: Seq<CaseView>,
}

pub open spec fn constraint_views(v: Seq<(String, Constraint)>) -> Seq<(Seq<char>, ConstraintView)> {
    v.map_values(|e: (String, Constraint)| (e.0@, e.1.view()))
}

impl Rule {
    pub open spec fn view(&self) -> RuleView {
        RuleView {
            id: opt_view(self.id),
            description: opt_view(self.description),
            pattern: self.pattern@,
            rewrite: opt_view(self.rewrite),
            constraints: constraint_views(self.constraints@),
            scope: self.scope.view(),
            ruby: opt_view(self.ruby),
            unsafe_because: opt_view(self.unsafe_because),
            tests: case_views(self.tests@),
        }
    }

    /// The class this rule is about, if it names one: its `inside:` scope,
    /// else the first `type:` among its constraints.
    pub fn class_anchor(&self) -> (r: Option<String>)
        ensures
            opt_view(r) == spec_class_anchor(self.view()),
    {
        if let Some(inside) = &self.scope.inside {
            return Some(owned(inside.as_str()));
        }
        let mut k: usize = 0;
        while k < self.constraints.len()
            invariant
                k <= self.constraints@.len(),
                self.scope.inside is None,
                first_type(constraint_views(self.constraints@), 0) == first_type(constraint_views(self.constraints@), k as int),
            decreases self.constraints@.len() - k,
        {
            if let Some(t) = &self.constraints[k].1.receiver_type {
                return Some(owned(t.as_str()));
            }
            k += 1;
        }
        None
    }

    /// Captures the rule declares to be constants, with their `$`.
    pub fn constant_captures(&self) -> (r: Vec<String>)
        ensures
            string_views(r@) == spec_constant_captures(constraint_views(self.constraints@)),
    {
        let mut out: Vec<String> = Vec::new();
        let mut k: usize = 0;
        while k < self.constraints.len()
            invariant
                k <= self.constraints@.len(),
                string_views(out@) == spec_constant_captures(constraint_views(self.constraints@).take(k as int)),
            decreases self.constraints@.len() - k,
        {
            proof {
                assert(constraint_views(self.constraints@).take(k + 1).drop_last() =~= constraint_views(self.constraints@).take(k as int));
            }
            if self.constraints[k].1.is == Some(NodeKind::Constant) {
                out.push(owned(self.constraints[k].0.as_str()));
            }
            k += 1;
        }
        assert(constraint_views(self.constraints@).take(k as int) =~= constraint_views(self.constraints@));
        out
    }
}

/// The first `type:` among constraints from `k` on.
pub open spec fn first_type(cs: Seq<(Seq<char>, ConstraintView)>, k: int) -> Option<Seq<char>>
    decreases cs.len() - k,
{
    if k < 0 || k >= cs.len() {
        None
    } else if cs[k].1.receiver_type is Some {
        cs[k].1.receiver_type
    } else {
        first_type(cs, k + 1)
    }
}

pub open spec fn spec_class_anchor(r: RuleView) -> Option<Seq<char>> {
    match r.scope.inside {
        Some(c) => Some(c),
        None => first_type(r.constraints, 0),
    }
}

pub open spec fn spec_constant_captures(cs: Seq<(Seq<char>, ConstraintView)>) -> Seq<Seq<char>>
    decreases cs.len(),
{
    if cs.len() == 0 {
        Seq::empty()
    } else if cs.last().1.is == Some(NodeKind::Constant) {
        spec_constant_captures(cs.drop_last()).push(cs.last().0)
    } else {
        spec_constant_captures(cs.drop_last())
    }
}

/// Every fixture in a rule set, in document order, each checked against what
/// the set can actually do. `moves` is whether some rule of the set moves a
/// method's name -- a rule whose pattern defines the method, the set's
/// `Engine::claims_completeness`: a `residue:` count means nothing without
/// one, and is refused, as `finds:` is on a rewriting set.
pub fn cases(rules: &Vec<Rule>, moves: bool) -> (r: Result<Vec<Case>, String>)
    ensures
        match r {
            Ok(found) => case_views(found@) == all_cases(rule_views(rules@))
                && forall|k: int| 0 <= k < found@.len() ==> spec_check(#[trigger] found@[k].view(), set_rewrites(rule_views(rules@)), set_reports(rule_views(rules@)), moves) is Ok,
            Err(e) => exists|k: int| 0 <= k < all_cases(rule_views(rules@)).len() && spec_check(
                #[trigger] all_cases(rule_views(rules@))[k],
                set_rewrites(rule_views(rules@)),
                set_reports(rule_views(rules@)),
                moves,
            ) == Err::<(), Seq<char>>(e@),
        },
        r is Ok <==> forall|k: int|
            0 <= k < all_cases(rule_views(rules@)).len() ==> spec_check(
                #[trigger] all_cases(rule_views(rules@))[k],
                set_rewrites(rule_views(rules@)),
                set_reports(rule_views(rules@)),
                moves,
            ) is Ok,
{
    let ghost rv = rule_views(rules@);
    let mut rewrites = false;
    let mut reports = false;
    let mut k: usize = 0;
    while k < rules.len()
        invariant
            k <= rules@.len(),
            rv == rule_views(rules@),
            rewrites == exists|j: int| 0 <= j < k && (#[trigger] rv[j]).rewrite is Some,
            reports == exists|j: int| 0 <= j < k && (#[trigger] rv[j]).rewrite is None,
        decreases rules@.len() - k,
    {
        if rules[k].rewrite.is_some() {
            rewrites = true;
        } else {
            reports = true;
        }
        proof {
            assert(rv[k as int].rewrite == opt_view(rules@[k as int].rewrite));
        }
        k += 1;
    }
    let mut found: Vec<Case> = Vec::new();
    let mut k: usize = 0;
    while k < rules.len()
        invariant
            k <= rules@.len(),
            rv == rule_views(rules@),
            rewrites == set_rewrites(rv),
            reports == set_reports(rv),
            case_views(found@) == all_cases(rv.take(k as int)),
            forall|j: int| 0 <= j < found@.len() ==> spec_check(#[trigger] found@[j].view(), rewrites, reports, moves) is Ok,
        decreases rules@.len() - k,
    {
        let tests = &rules[k].tests;
        let ghost before = case_views(found@);
        proof {
            assert(rv.take(k + 1).drop_last() =~= rv.take(k as int));
            assert(rv[k as int].tests == case_views(tests@));
        }
        let mut i: usize = 0;
        while i < tests.len()
            invariant
                i <= tests@.len(),
                case_views(found@) == before + case_views(tests@).take(i as int),
                forall|j: int| 0 <= j < found@.len() ==> spec_check(#[trigger] found@[j].view(), rewrites, reports, moves) is Ok,
                before == all_cases(rv.take(k as int)),
                k < rules@.len(),
                case_views(tests@) == rv[k as int].tests,
                rv == rule_views(rules@),
                rewrites == set_rewrites(rv),
                reports == set_reports(rv),
            decreases tests@.len() - i,
        {
            let case = &tests[i];
            match case.check(rewrites, reports, moves) {
                Err(e) => {
                    proof {
                        let all = all_cases(rv);
                        lemma_all_cases_prefix(rv, k as int);
                        assert(all[before.len() + i] == case_views(tests@)[i as int]);
                        assert(case_views(tests@)[i as int] == case.view());
                        assert(spec_check(all[before.len() + i], set_rewrites(rv), set_reports(rv), moves) == Err::<(), Seq<char>>(e@));
                    }
                    return Err(e);
                },
                Ok(()) => {},
            }
            let ghost prev = case_views(found@);
            found.push(case.duplicate());
            proof {
                assert(case_views(found@) =~= prev.push(case.view()));
                assert(case_views(tests@).take(i + 1) =~= case_views(tests@).take(i as int).push(case.view()));
            }
            i += 1;
        }
        proof {
            assert(case_views(tests@).take(tests@.len() as int) =~= case_views(tests@));
        }
        k += 1;
    }
    proof {
        assert(rv.take(rules@.len() as int) =~= rv);
    }
    Ok(found)
}

pub open spec fn rule_views(rs: Seq<Rule>) -> Seq<RuleView> {
    rs.map_values(|r: Rule| r.view())
}

pub open spec fn case_views(cs: Seq<Case>) -> Seq<CaseView> {
    cs.map_values(|c: Case| c.view())
}

/// Whether any rule in a set proposes an edit.
pub open spec fn set_rewrites(rs: Seq<RuleView>) -> bool {
    exists|j: int| 0 <= j < rs.len() && (#[trigger] rs[j]).rewrite is Some
}

/// Whether any rule in a set only reports.
pub open spec fn set_reports(rs: Seq<RuleView>) -> bool {
    exists|j: int| 0 <= j < rs.len() && (#[trigger] rs[j]).rewrite is None
}

/// Every fixture of every rule, in order.
pub open spec fn all_cases(rs: Seq<RuleView>) -> Seq<CaseView>
    decreases rs.len(),
{
    if rs.len() == 0 {
        Seq::empty()
    } else {
        all_cases(rs.drop_last()) + rs.last().tests
    }
}

/// The fixtures of the first `k` rules come first.
pub proof fn lemma_all_cases_prefix(rs: Seq<RuleView>, k: int)
    requires
        0 <= k < rs.len(),
    ensures
        all_cases(rs).len() >= all_cases(rs.take(k)).len() + rs[k].tests.len(),
        forall|i: int| 0 <= i < rs[k].tests.len() ==> all_cases(rs)[all_cases(rs.take(k)).len() + i] == #[trigger] rs[k].tests[i],
    decreases rs.len(),
{
    if k == rs.len() - 1 {
        assert(rs.drop_last() =~= rs.take(k));
    } else {
        assert(rs.drop_last().take(k) =~= rs.take(k));
        lemma_all_cases_prefix(rs.drop_last(), k);
        assert(rs.drop_last()[k] == rs[k]);
        assert forall|i: int| 0 <= i < rs[k].tests.len() implies all_cases(rs)[all_cases(rs.take(k)).len() + i] == #[trigger] rs[k].tests[i] by {
            assert(all_cases(rs) == all_cases(rs.drop_last()) + rs.last().tests);
        }
    }
}

} // verus!

verus! {

/// A rename written in Ruby's own method notation: `Account#display_name`,
/// `Account.display_name`, or a bare `display_name`.
#[derive(Debug)]
pub struct MethodRename {
    pub method: String,
    /// The new name, or absent to report the method's sites instead.
    pub rename: Option<String>,
}

/// The trailing `?` and `!` of a method name removed.
pub open spec fn strip_marks(n: Seq<u8>) -> Seq<u8>
    decreases n.len(),
{
    if n.len() > 0 && (n.last() == 63 || n.last() == 33) {
        strip_marks(n.drop_last())
    } else {
        n
    }
}

/// How many `?` and `!` a name holds.
pub open spec fn count_marks(n: Seq<u8>) -> nat
    decreases n.len(),
{
    if n.len() == 0 {
        0
    } else {
        count_marks(n.drop_last()) + if n.last() == 63 || n.last() == 33 {
            1nat
        } else {
            0nat
        }
    }
}

pub open spec fn all_word(n: Seq<u8>) -> bool {
    forall|i: int| 0 <= i < n.len() ==> spec_word(#[trigger] n[i])
}

/// A method name: a lowercase letter or `_`, identifier bytes, and at most
/// one `?` or `!` at the end.
pub open spec fn spec_is_name(n: Seq<u8>) -> bool {
    &&& n.len() > 0
    &&& (spec_lower(n[0]) || n[0] == 95)
    &&& all_word(strip_marks(n))
    &&& count_marks(n) <= 1
}

/// One segment of a constant path: a capital, then identifier bytes.
pub open spec fn segment_ok(s: Seq<u8>) -> bool {
    s.len() > 0 && spec_upper(s[0]) && all_word(s)
}

pub open spec fn path_sep() -> Seq<u8> {
    seq![58u8, 58u8]
}

/// `Foo` or `Foo::Bar`: every `::`-separated segment a constant.
pub open spec fn segments_ok(c: Seq<u8>) -> bool
    decreases c.len(),
{
    match crate::text::first_occ(c, path_sep(), 0) {
        None => segment_ok(c),
        Some(i) => if 0 <= i && i + 2 <= c.len() {
            segment_ok(c.subrange(0, i)) && segments_ok(c.subrange(i + 2, c.len() as int))
        } else {
            false
        },
    }
}

pub open spec fn spec_is_class(c: Seq<u8>) -> bool {
    c.len() > 0 && segments_ok(c)
}

/// The first `#` or `.` in a method notation.
pub open spec fn first_mark(b: Seq<u8>, k: int) -> Option<int>
    decreases b.len() - k,
{
    if k < 0 || k >= b.len() {
        None
    } else if b[k] == 35 || b[k] == 46 {
        Some(k)
    } else {
        first_mark(b, k + 1)
    }
}

/// Whether `arg`, trimmed, is a method in Ruby's notation: `Konstant#name`,
/// `Konstant.name` or `#name`, and nothing richer.
pub open spec fn spec_notation(b: Seq<u8>) -> bool {
    match first_mark(b, 0) {
        None => false,
        Some(i) => {
            let class = b.subrange(0, i);
            let name = b.subrange(i + 1, b.len() as int);
            spec_is_name(name) && (spec_is_class(class) || (class.len() == 0 && b[0] == 35))
        },
    }
}

fn all_word_exec(b: &[u8], from: usize, to: usize) -> (r: bool)
    requires
        from <= to <= b@.len(),
    ensures
        r == all_word(b@.subrange(from as int, to as int)),
{
    let mut k = from;
    while k < to
        invariant
            from <= k <= to,
            to <= b@.len(),
            all_word(b@.subrange(from as int, k as int)),
        decreases to - k,
    {
        if !is_word(b[k]) {
            assert(b@.subrange(from as int, to as int)[k - from] == b@[k as int]);
            return false;
        }
        k += 1;
        assert forall|i: int| 0 <= i < k - from implies spec_word(#[trigger] b@.subrange(from as int, k as int)[i]) by {
            assert(b@.subrange(from as int, k as int)[i] == b@[from + i]);
            if i < k - 1 - from {
                assert(b@.subrange(from as int, k - 1)[i] == b@[from + i]);
            }
        }
    }
    true
}

pub proof fn lemma_strip_marks(n: Seq<u8>)
    ensures
        strip_marks(n).len() <= n.len(),
        strip_marks(n) == n.subrange(0, strip_marks(n).len() as int),
    decreases n.len(),
{
    if n.len() > 0 && (n.last() == 63 || n.last() == 33) {
        lemma_strip_marks(n.drop_last());
        assert(n.drop_last().subrange(0, strip_marks(n).len() as int) =~= n.subrange(0, strip_marks(n).len() as int));
    } else {
        assert(n =~= n.subrange(0, n.len() as int));
    }
}

fn is_name_exec(b: &[u8], from: usize) -> (r: bool)
    requires
        from <= b@.len(),
    ensures
        r == spec_is_name(b@.subrange(from as int, b@.len() as int)),
{
    let ghost n = b@.subrange(from as int, b@.len() as int);
    if from >= b.len() {
        return false;
    }
    if !(is_lower(b[from]) || b[from] == 95) {
        return false;
    }
    // The name with its trailing marks stripped.
    let mut e = b.len();
    while e > from && (b[e - 1] == 63 || b[e - 1] == 33)
        invariant
            from <= e <= b@.len(),
            strip_marks(n) == strip_marks(b@.subrange(from as int, e as int)),
        decreases e - from,
    {
        proof {
            assert(b@.subrange(from as int, e as int).drop_last() =~= b@.subrange(from as int, e - 1));
        }
        e -= 1;
    }
    proof {
        let m = b@.subrange(from as int, e as int);
        assert(strip_marks(m) == m);
    }
    if !all_word_exec(b, from, e) {
        return false;
    }
    let mut count: usize = 0;
    let mut k = from;
    while k < b.len()
        invariant
            from <= k <= b@.len(),
            count == count_marks(b@.subrange(from as int, k as int)),
            count <= k - from,
        decreases b@.len() - k,
    {
        proof {
            assert(b@.subrange(from as int, k + 1).drop_last() =~= b@.subrange(from as int, k as int));
        }
        if b[k] == 63 || b[k] == 33 {
            count += 1;
        }
        k += 1;
    }
    count <= 1
}

fn segment_ok_exec(b: &[u8], from: usize, to: usize) -> (r: bool)
    requires
        from <= to <= b@.len(),
    ensures
        r == segment_ok(b@.subrange(from as int, to as int)),
{
    if from >= to {
        return false;
    }
    if !is_upper(b[from]) {
        return false;
    }
    all_word_exec(b, from, to)
}

fn is_class_exec(b: &[u8], from: usize, to: usize) -> (r: bool)
    requires
        from <= to <= b@.len(),
    ensures
        r == segments_ok(b@.subrange(from as int, to as int)),
    decreases to - from,
{
    let ghost c = b@.subrange(from as int, to as int);
    let sep: Vec<u8> = vec![58u8, 58u8];
    let sub = &b[from..to];
    let found = crate::text::find(sub, 0, sep.as_slice());
    proof {
        assert(sep@ =~= path_sep());
        assert(sub@ =~= c);
        crate::erb::lemma_first_occ_some(c, path_sep(), 0);
    }
    match found {
        None => segment_ok_exec(b, from, to),
        Some(i) => {
            proof {
                assert(c.subrange(0, i as int) =~= b@.subrange(from as int, from + i));
                assert(c.subrange(i + 2, c.len() as int) =~= b@.subrange(from + i + 2, to as int));
            }
            segment_ok_exec(b, from, from + i) && is_class_exec(b, from + i + 2, to)
        },
    }
}

/// A method named in Ruby's own notation, given where a rule is expected.
///
/// Deliberately narrow: only a bare `Konstant#name`, `Konstant.name` or
/// `#name`. Anything richer -- arguments, a chain, a metavariable -- is a
/// pattern and stays one.
pub fn method_notation(arg: &str) -> (r: Option<MethodRename>)
    ensures
        match r {
            None => !spec_notation(vstd::utf8::encode_utf8(spec_trim(arg@))),
            Some(m) => spec_notation(vstd::utf8::encode_utf8(spec_trim(arg@))) && m.method@ == spec_trim(
                arg@,
            ) && m.rename is None,
        },
{
    let t = trim(arg);
    let b = t.as_bytes();
    let mut i: usize = 0;
    while i < b.len() && b[i] != 35 && b[i] != 46
        invariant
            i <= b@.len(),
            first_mark(b@, 0) == first_mark(b@, i as int),
        decreases b@.len() - i,
    {
        i += 1;
    }
    if i == b.len() {
        return None;
    }
    if !is_name_exec(b, i + 1) {
        return None;
    }
    let class_ok = (i > 0 && is_class_exec(b, 0, i)) || (i == 0 && b[0] == 35);
    proof {
        assert(b@.subrange(0, i as int).len() == i);
    }
    if !class_ok {
        return None;
    }
    Some(MethodRename { method: owned(t), rename: None })
}

/// The designator split into class, name and kind, as byte ranges: `#`
/// names an instance method, `.` a class method, and no mark at all an
/// instance method of no particular class.
pub open spec fn spec_parts(m: Seq<u8>) -> (Seq<u8>, Seq<u8>, Kind) {
    match crate::text::first_occ(m, seq![35u8], 0) {
        Some(i) => (m.subrange(0, i), m.subrange(i + 1, m.len() as int), Kind::Instance),
        None => match crate::text::first_occ(m, seq![46u8], 0) {
            Some(i) => (m.subrange(0, i), m.subrange(i + 1, m.len() as int), Kind::Class),
            None => (Seq::empty(), m, Kind::Instance),
        },
    }
}

pub open spec fn decode(b: Seq<u8>) -> Seq<char> {
    vstd::utf8::decode_utf8(b)
}

/// The class a designator names, if any.
pub open spec fn parts_class(m: Seq<u8>) -> Option<Seq<char>> {
    if spec_parts(m).0.len() == 0 {
        None
    } else {
        Some(decode(spec_parts(m).0))
    }
}

pub open spec fn str_opt_view(s: Option<&str>) -> Option<Seq<char>> {
    match s {
        Some(s) => Some(s@),
        None => None,
    }
}

impl MethodRename {
    pub open spec fn bytes(&self) -> Seq<u8> {
        vstd::utf8::encode_utf8(self.method@)
    }

    /// Split `Account#foo` / `Account.foo` into its class, name, and kind.
    pub fn parts(&self) -> (r: (Option<&str>, &str, Kind))
        ensures
            str_opt_view(r.0) == parts_class(self.bytes()),
            r.1@ == decode(spec_parts(self.bytes()).1),
            r.2 == spec_parts(self.bytes()).2,
    {
        let m = self.method.as_str();
        let b = m.as_bytes();
        let hash: Vec<u8> = vec![35u8];
        let dot: Vec<u8> = vec![46u8];
        proof {
            assert(hash@ =~= seq![35u8]);
            assert(dot@ =~= seq![46u8]);
            crate::erb::lemma_first_occ_some(b@, seq![35u8], 0);
            crate::erb::lemma_first_occ_some(b@, seq![46u8], 0);
        }
        let h = crate::text::find(b, 0, hash.as_slice());
        let d = crate::text::find(b, 0, dot.as_slice());
        let (at, kind) = match h {
            Some(i) => (i, Kind::Instance),
            None => match d {
                Some(i) => (i, Kind::Class),
                None => {
                    proof {
                        assert(b@ =~= b@.subrange(0, b@.len() as int));
                        vstd::utf8::encode_utf8_decode_utf8(m@);
                    }
                    return (None, m, Kind::Instance);
                },
            },
        };
        let n = b.len();
        proof {
            assert(at + 1 <= n);
            assert(b@.subrange(at as int, at + 1)[0] == b@[at as int]);
            lemma_ascii_split(m@, at as int);
        }
        let class = slice_str(m, 0, at);
        let name = slice_str(m, at + 1, n);
        if at == 0 {
            (None, name, kind)
        } else {
            (Some(class), name, kind)
        }
    }

    /// The designator's parts, for saying out loud how it was read. With no
    /// class there is nothing for `kind:` to compare against, so the kind
    /// reads `any`.
    pub fn parts_for_report(&self) -> (r: (Option<String>, String, &'static str))
        ensures
            opt_view(r.0) == parts_class(self.bytes()),
            r.1@ == decode(spec_parts(self.bytes()).1),
            r.2@ == (if parts_class(self.bytes()) is None {
                "any"@
            } else if spec_parts(self.bytes()).2 == Kind::Class {
                "class"@
            } else {
                "instance"@
            }),
    {
        let (class, name, kind) = self.parts();
        let label = match (class, kind) {
            (None, _) => "any",
            (_, Kind::Class) => "class",
            (_, Kind::Instance) => "instance",
        };
        let class = match class {
            Some(c) => Some(owned(c)),
            None => None,
        };
        (class, owned(name), label)
    }
}

pub proof fn lemma_ascii_split(s: Seq<char>, i: int)
    requires
        0 <= i < vstd::utf8::encode_utf8(s).len(),
        vstd::utf8::encode_utf8(s)[i] < 128,
    ensures
        starts_char(vstd::utf8::encode_utf8(s), i),
        starts_char(vstd::utf8::encode_utf8(s), i + 1),
{
    crate::text::lemma_ascii_splits(s, i);
}

} // verus!

verus! {

/// A rule with a pattern, a rewrite, constraints and a scope, and nothing
/// else declared.
pub open spec fn rule_of(
    pattern: Seq<char>,
    rewrite: Seq<char>,
    constraints: Seq<(Seq<char>, ConstraintView)>,
    scope: ScopeView,
) -> RuleView {
    RuleView {
        id: None,
        description: None,
        pattern,
        rewrite: Some(rewrite),
        constraints,
        scope,
        ruby: None,
        unsafe_because: None,
        tests: Seq::empty(),
    }
}

/// The same rule reporting rather than renaming: its template dropped, and
/// described as the sites of the method, so the sites it covers are exactly
/// those of the rename.
pub open spec fn as_report(r: RuleView, method: Seq<char>) -> RuleView {
    RuleView {
        rewrite: None,
        description: match r.description {
            Some(d) => Some(d),
            None => Some("Sites of "@ + method),
        },
        ..r
    }
}

/// A rule as the expansion hands it out: reporting when there is no new name.
pub open spec fn finished(r: RuleView, report: Option<Seq<char>>) -> RuleView {
    match report {
        Some(method) => as_report(r, method),
        None => r,
    }
}

pub open spec fn no_scope() -> ScopeView {
    ScopeView { inside: None, singleton: None, subclasses: None }
}

/// Inside the class, or any subclass.
pub open spec fn class_scope(class: Option<Seq<char>>) -> ScopeView {
    ScopeView { inside: class, singleton: None, subclasses: Some(true) }
}

/// Inside the class or a subclass, and in or out of singleton context.
pub open spec fn singleton_scope(class: Option<Seq<char>>, singleton: bool) -> ScopeView {
    ScopeView { inside: class, singleton: Some(singleton), subclasses: Some(true) }
}

/// A receiver of the class, or a subclass, of the given kind.
pub open spec fn receiver_constraint(class: Option<Seq<char>>, kind: Kind) -> ConstraintView {
    ConstraintView { receiver_type: class, kind: Some(kind), subclasses: Some(true), ..empty_constraint() }
}

/// An identifier from a list.
pub open spec fn names_constraint(names: Seq<Seq<char>>) -> ConstraintView {
    ConstraintView { name: Some(names), ..empty_constraint() }
}

/// The dispatchers a literal method name may be handed to.
pub open spec fn dispatchers() -> Seq<Seq<char>> {
    seq!["send"@, "public_send"@, "__send__"@, "try"@, "try!"@]
}

/// Macros that hand a symbol to the enclosing class: every symbol they take
/// lands on that class, which is what makes rewriting them safe.
pub open spec fn macros_for(kind: Kind) -> Seq<Seq<char>> {
    match kind {
        Kind::Instance => seq![
            "attr"@,
            "attr_reader"@,
            "attr_accessor"@,
            "attr_writer"@,
            "private"@,
            "public"@,
            "protected"@,
            "module_function"@,
        ],
        Kind::Class => seq!["private_class_method"@, "public_class_method"@],
    }
}

pub open spec fn params_body() -> Seq<char> {
    "(*$P); $B; end"@
}

/// The definitions of the method: `def name(*$P)` in the right context, and
/// for a class method also `def self.name` and `def Konstant.name`.
pub open spec fn definition_rules(class: Option<Seq<char>>, name: Seq<char>, kind: Kind, new: Seq<char>) -> Seq<
    RuleView,
> {
    let body = params_body();
    match kind {
        Kind::Instance => seq![
            rule_of("def "@ + name + body, "def "@ + new + body, Seq::empty(), singleton_scope(class, false)),
        ],
        Kind::Class => seq![
            rule_of("def self."@ + name + body, "def self."@ + new + body, Seq::empty(), class_scope(class)),
            rule_of("def "@ + name + body, "def "@ + new + body, Seq::empty(), singleton_scope(class, true)),
        ] + match class {
            Some(c) => seq![
                rule_of(
                    "def "@ + c + "."@ + name + body,
                    "def "@ + c + "."@ + new + body,
                    Seq::empty(),
                    no_scope(),
                ),
            ],
            None => Seq::empty(),
        },
    }
}

/// The calls: on an explicit receiver of the class and kind, and by a
/// literal name handed to a dispatcher on such a receiver.
pub open spec fn call_rules(class: Option<Seq<char>>, name: Seq<char>, kind: Kind, new: Seq<char>) -> Seq<RuleView> {
    let recv = seq![("$R"@, receiver_constraint(class, kind))];
    let disp = seq![("$R"@, receiver_constraint(class, kind)), ("$SEND"@, names_constraint(dispatchers()))];
    seq![
        rule_of("$R."@ + name, "$R."@ + new, recv, no_scope()),
        rule_of("$R.$SEND(:"@ + name + ")"@, "$R.$SEND(:"@ + new + ")"@, disp, no_scope()),
        rule_of("$R.$SEND(\""@ + name + "\")"@, "$R.$SEND(\""@ + new + "\")"@, disp, no_scope()),
    ]
}

/// What only lexical scope can reach, and so only with a class: the symbol
/// macros, `define_method` in both block shapes, `alias_method` on either
/// side, and implicit self in the matching singleton context.
pub open spec fn scoped_rules(class: Option<Seq<char>>, name: Seq<char>, kind: Kind, new: Seq<char>) -> Seq<RuleView> {
    match class {
        None => Seq::empty(),
        Some(_) => seq![
            rule_of(
                "$MACRO(*$BEFORE, :"@ + name + ", *$AFTER)"@,
                "$MACRO(*$BEFORE, :"@ + new + ", *$AFTER)"@,
                seq![("$MACRO"@, names_constraint(macros_for(kind)))],
                class_scope(class),
            ),
            rule_of(
                "define_method(:"@ + name + ") { $B }"@,
                "define_method(:"@ + new + ") { $B }"@,
                Seq::empty(),
                class_scope(class),
            ),
            rule_of(
                "define_method(:"@ + name + ") { |*$P| $B }"@,
                "define_method(:"@ + new + ") { |*$P| $B }"@,
                Seq::empty(),
                class_scope(class),
            ),
            rule_of(
                "alias_method :$ALIAS, :"@ + name,
                "alias_method :$ALIAS, :"@ + new,
                Seq::empty(),
                class_scope(class),
            ),
            rule_of(
                "alias_method :"@ + name + ", :$TARGET"@,
                "alias_method :"@ + new + ", :$TARGET"@,
                Seq::empty(),
                class_scope(class),
            ),
            rule_of(name, new, Seq::empty(), singleton_scope(class, kind == Kind::Class)),
        ],
    }
}

/// The rule set a rename needs, in order: definitions, calls, then what
/// lexical scope reaches.
pub open spec fn rename_rules(class: Option<Seq<char>>, name: Seq<char>, kind: Kind, new: Seq<char>) -> Seq<RuleView> {
    definition_rules(class, name, kind, new) + call_rules(class, name, kind, new) + scoped_rules(
        class,
        name,
        kind,
        new,
    )
}

/// The rules a method notation stands for: the rename's rule set, or with no
/// new name the same set reporting the method's sites instead.
pub open spec fn spec_expand(method: Seq<char>, rename: Option<Seq<char>>) -> Seq<RuleView> {
    let b = vstd::utf8::encode_utf8(method);
    let class = parts_class(b);
    let name = decode(spec_parts(b).1);
    let kind = spec_parts(b).2;
    let new = match rename {
        Some(n) => n,
        None => name,
    };
    let report = match rename {
        Some(_) => None,
        None => Some(method),
    };
    rename_rules(class, name, kind, new).map_values(|r: RuleView| finished(r, report))
}

fn opt_owned(s: Option<&str>) -> (r: Option<String>)
    ensures
        opt_view(r) == str_opt_view(s),
{
    match s {
        Some(s) => Some(owned(s)),
        None => None,
    }
}

fn make_scope(class: Option<&str>, singleton: Option<bool>, subclasses: Option<bool>) -> (s: Scope)
    ensures
        s.view() == (ScopeView { inside: str_opt_view(class), singleton, subclasses }),
{
    Scope { inside: opt_owned(class), singleton, subclasses }
}

fn receiver_of(class: Option<&str>, kind: Kind) -> (c: Constraint)
    ensures
        c.view() == receiver_constraint(str_opt_view(class), kind),
{
    let mut c = Constraint::none();
    c.receiver_type = opt_owned(class);
    c.kind = Some(kind);
    c.subclasses = Some(true);
    c
}

fn strings_of(words: &[&str]) -> (v: Vec<String>)
    ensures
        string_views(v@) == words@.map_values(|w: &str| w@),
{
    let mut v: Vec<String> = Vec::new();
    let mut k: usize = 0;
    while k < words.len()
        invariant
            k <= words@.len(),
            string_views(v@) == words@.map_values(|w: &str| w@).take(k as int),
        decreases words@.len() - k,
    {
        let ghost before = string_views(v@);
        v.push(owned(words[k]));
        proof {
            assert(string_views(v@) =~= before.push(words@[k as int]@));
            assert(words@.map_values(|w: &str| w@).take(k + 1) =~= words@.map_values(|w: &str| w@).take(
                k as int,
            ).push(words@[k as int]@));
        }
        k += 1;
    }
    proof {
        assert(words@.map_values(|w: &str| w@).take(words@.len() as int) =~= words@.map_values(
            |w: &str| w@,
        ));
    }
    v
}

fn names_of(words: &[&str]) -> (c: Constraint)
    ensures
        c.view() == names_constraint(words@.map_values(|w: &str| w@)),
{
    let mut c = Constraint::none();
    c.name = Some(strings_of(words));
    c
}

fn make_rule(
    pattern: String,
    rewrite: String,
    constraints: Vec<(String, Constraint)>,
    scope: Scope,
    report: Option<&str>,
) -> (r: Rule)
    ensures
        r.view() == finished(
            rule_of(pattern@, rewrite@, constraint_views(constraints@), scope.view()),
            str_opt_view(report),
        ),
{
    let (rewrite, description) = match report {
        Some(method) => (None, Some(cat("Sites of ", method))),
        None => (Some(rewrite), None),
    };
    let r = Rule {
        id: None,
        description,
        pattern,
        rewrite,
        constraints,
        scope,
        ruby: None,
        unsafe_because: None,
        tests: Vec::new(),
    };
    proof {
        assert(case_views(r.tests@) =~= Seq::<CaseView>::empty());
    }
    r
}

} // verus!

verus! {

pub open spec fn finish_all(rs: Seq<RuleView>, report: Option<Seq<char>>) -> Seq<RuleView> {
    rs.map_values(|r: RuleView| finished(r, report))
}

fn definitions(class: Option<&str>, name: &str, kind: Kind, new: &str, report: Option<&str>) -> (v: Vec<Rule>)
    ensures
        rule_views(v@) == finish_all(
            definition_rules(str_opt_view(class), name@, kind, new@),
            str_opt_view(report),
        ),
{
    let body = "(*$P); $B; end";
    let mut v: Vec<Rule> = Vec::new();
    match kind {
        Kind::Instance => {
            v.push(
                make_rule(
                    cat3("def ", name, body),
                    cat3("def ", new, body),
                    Vec::new(),
                    make_scope(class, Some(false), Some(true)),
                    report,
                ),
            );
        },
        Kind::Class => {
            v.push(
                make_rule(
                    cat3("def self.", name, body),
                    cat3("def self.", new, body),
                    Vec::new(),
                    make_scope(class, None, Some(true)),
                    report,
                ),
            );
            v.push(
                make_rule(
                    cat3("def ", name, body),
                    cat3("def ", new, body),
                    Vec::new(),
                    make_scope(class, Some(true), Some(true)),
                    report,
                ),
            );
            if let Some(c) = class {
                let mut p = cat3("def ", c, ".");
                p.append(name);
                p.append(body);
                let mut w = cat3("def ", c, ".");
                w.append(new);
                w.append(body);
                v.push(make_rule(p, w, Vec::new(), make_scope(None, None, None), report));
            }
        },
    }
    proof {
        let defs = definition_rules(str_opt_view(class), name@, kind, new@);
        let want = finish_all(defs, str_opt_view(report));
        assert(want.len() == v@.len());
        assert(rule_views(v@).len() == want.len());
        assert forall|k: int| 0 <= k < v@.len() implies #[trigger] rule_views(v@)[k] == want[k] by {
            assert(constraint_views(Seq::<(String, Constraint)>::empty()) =~= Seq::empty());
            assert(case_views(Seq::<Case>::empty()) =~= Seq::empty());
        }
    }
    v
}

fn calls(class: Option<&str>, name: &str, kind: Kind, new: &str, report: Option<&str>) -> (v: Vec<Rule>)
    ensures
        rule_views(v@) == finish_all(call_rules(str_opt_view(class), name@, kind, new@), str_opt_view(report)),
{
    let mut v: Vec<Rule> = Vec::new();
    let mut recv: Vec<(String, Constraint)> = Vec::new();
    recv.push((owned("$R"), receiver_of(class, kind)));
    proof {
        assert(constraint_views(recv@) =~= seq![("$R"@, receiver_constraint(str_opt_view(class), kind))]);
    }
    v.push(make_rule(cat("$R.", name), cat("$R.", new), recv, make_scope(None, None, None), report));
    let dispatch = ["send", "public_send", "__send__", "try", "try!"];
    proof {
        assert(dispatch@.map_values(|w: &str| w@) =~= dispatchers());
    }
    let mut d1: Vec<(String, Constraint)> = Vec::new();
    d1.push((owned("$R"), receiver_of(class, kind)));
    d1.push((owned("$SEND"), names_of(&dispatch)));
    proof {
        assert(constraint_views(d1@) =~= seq![
            ("$R"@, receiver_constraint(str_opt_view(class), kind)),
            ("$SEND"@, names_constraint(dispatchers())),
        ]);
    }
    v.push(
        make_rule(
            cat3("$R.$SEND(:", name, ")"),
            cat3("$R.$SEND(:", new, ")"),
            d1,
            make_scope(None, None, None),
            report,
        ),
    );
    let mut d2: Vec<(String, Constraint)> = Vec::new();
    d2.push((owned("$R"), receiver_of(class, kind)));
    d2.push((owned("$SEND"), names_of(&dispatch)));
    proof {
        assert(constraint_views(d2@) =~= seq![
            ("$R"@, receiver_constraint(str_opt_view(class), kind)),
            ("$SEND"@, names_constraint(dispatchers())),
        ]);
    }
    v.push(
        make_rule(
            cat3("$R.$SEND(\"", name, "\")"),
            cat3("$R.$SEND(\"", new, "\")"),
            d2,
            make_scope(None, None, None),
            report,
        ),
    );
    proof {
        let want = finish_all(call_rules(str_opt_view(class), name@, kind, new@), str_opt_view(report));
        assert(rule_views(v@).len() == want.len());
        assert forall|k: int| 0 <= k < v@.len() implies #[trigger] rule_views(v@)[k] == want[k] by {}
    }
    v
}

fn scoped(class: Option<&str>, name: &str, kind: Kind, new: &str, report: Option<&str>) -> (v: Vec<Rule>)
    ensures
        rule_views(v@) == finish_all(scoped_rules(str_opt_view(class), name@, kind, new@), str_opt_view(report)),
{
    let mut v: Vec<Rule> = Vec::new();
    if class.is_none() {
        proof {
            assert(rule_views(v@) =~= finish_all(
                scoped_rules(str_opt_view(class), name@, kind, new@),
                str_opt_view(report),
            ));
        }
        return v;
    }
    let mut macro_names: Vec<(String, Constraint)> = Vec::new();
    match kind {
        Kind::Instance => {
            let list = [
                "attr",
                "attr_reader",
                "attr_accessor",
                "attr_writer",
                "private",
                "public",
                "protected",
                "module_function",
            ];
            proof {
                assert(list@.map_values(|w: &str| w@) =~= macros_for(kind));
            }
            macro_names.push((owned("$MACRO"), names_of(&list)));
        },
        Kind::Class => {
            let list = ["private_class_method", "public_class_method"];
            proof {
                assert(list@.map_values(|w: &str| w@) =~= macros_for(kind));
            }
            macro_names.push((owned("$MACRO"), names_of(&list)));
        },
    }
    proof {
        assert(constraint_views(macro_names@) =~= seq![("$MACRO"@, names_constraint(macros_for(kind)))]);
    }
    v.push(
        make_rule(
            cat3("$MACRO(*$BEFORE, :", name, ", *$AFTER)"),
            cat3("$MACRO(*$BEFORE, :", new, ", *$AFTER)"),
            macro_names,
            make_scope(class, None, Some(true)),
            report,
        ),
    );
    v.push(
        make_rule(
            cat3("define_method(:", name, ") { $B }"),
            cat3("define_method(:", new, ") { $B }"),
            Vec::new(),
            make_scope(class, None, Some(true)),
            report,
        ),
    );
    v.push(
        make_rule(
            cat3("define_method(:", name, ") { |*$P| $B }"),
            cat3("define_method(:", new, ") { |*$P| $B }"),
            Vec::new(),
            make_scope(class, None, Some(true)),
            report,
        ),
    );
    v.push(
        make_rule(
            cat("alias_method :$ALIAS, :", name),
            cat("alias_method :$ALIAS, :", new),
            Vec::new(),
            make_scope(class, None, Some(true)),
            report,
        ),
    );
    v.push(
        make_rule(
            cat3("alias_method :", name, ", :$TARGET"),
            cat3("alias_method :", new, ", :$TARGET"),
            Vec::new(),
            make_scope(class, None, Some(true)),
            report,
        ),
    );
    let singleton = match kind {
        Kind::Class => true,
        Kind::Instance => false,
    };
    v.push(
        make_rule(owned(name), owned(new), Vec::new(), make_scope(class, Some(singleton), Some(true)), report),
    );
    proof {
        let want = finish_all(scoped_rules(str_opt_view(class), name@, kind, new@), str_opt_view(report));
        assert(rule_views(v@).len() == want.len());
        assert forall|k: int| 0 <= k < v@.len() implies #[trigger] rule_views(v@)[k] == want[k] by {
            assert(constraint_views(Seq::<(String, Constraint)>::empty()) =~= Seq::empty());
            assert(case_views(Seq::<Case>::empty()) =~= Seq::empty());
        }
    }
    v
}

impl MethodRename {
    /// The rules this notation stands for.
    ///
    /// A rename covers the hierarchy: reaching subclass call sites without
    /// renaming an override's definition would ship a `NoMethodError`, and
    /// the reverse would too. With no new name every rule loses its template
    /// and becomes a finding, so "where is this method" and "rename this
    /// method" are answered from one list rather than two that could drift.
    pub fn expand(&self) -> (r: Vec<Rule>)
        ensures
            rule_views(r@) == spec_expand(self.method@, opt_view(self.rename)),
    {
        let (class, name, kind) = self.parts();
        let new: &str = match &self.rename {
            Some(n) => n.as_str(),
            None => name,
        };
        let report: Option<&str> = match &self.rename {
            Some(_) => None,
            None => Some(self.method.as_str()),
        };
        let mut rules = definitions(class, name, kind, new, report);
        let mut more = calls(class, name, kind, new, report);
        let mut rest = scoped(class, name, kind, new, report);
        let ghost a = rule_views(rules@);
        let ghost b = rule_views(more@);
        let ghost c = rule_views(rest@);
        rules.append(&mut more);
        rules.append(&mut rest);
        proof {
            let cl = str_opt_view(class);
            let rep = str_opt_view(report);
            assert(rule_views(rules@) =~= a + b + c);
            assert(finish_all(rename_rules(cl, name@, kind, new@), rep) =~= finish_all(
                definition_rules(cl, name@, kind, new@),
                rep,
            ) + finish_all(call_rules(cl, name@, kind, new@), rep) + finish_all(
                scoped_rules(cl, name@, kind, new@),
                rep,
            ));
        }
        rules
    }
}

} // verus!

verus! {

/// The sites a method's rules cover do not depend on the new name.
proof fn lemma_sites_ignore_new_name(
    class: Option<Seq<char>>,
    name: Seq<char>,
    kind: Kind,
    a: Seq<char>,
    b: Seq<char>,
)
    ensures
        rename_rules(class, name, kind, a).len() == rename_rules(class, name, kind, b).len(),
        forall|k: int|
            0 <= k < rename_rules(class, name, kind, a).len() ==> {
                let x = #[trigger] rename_rules(class, name, kind, a)[k];
                let y = rename_rules(class, name, kind, b)[k];
                &&& x.pattern == y.pattern
                &&& x.constraints == y.constraints
                &&& x.scope == y.scope
                &&& x.rewrite is Some
                &&& y.rewrite is Some
            },
{
    let da = definition_rules(class, name, kind, a);
    let db = definition_rules(class, name, kind, b);
    let ca = call_rules(class, name, kind, a);
    let cb = call_rules(class, name, kind, b);
    let sa = scoped_rules(class, name, kind, a);
    let sb = scoped_rules(class, name, kind, b);
    assert(da.len() == db.len() && ca.len() == cb.len() && sa.len() == sb.len());
    assert forall|k: int| 0 <= k < da.len() implies (#[trigger] da[k]).pattern == db[k].pattern
        && da[k].constraints == db[k].constraints && da[k].scope == db[k].scope && da[k].rewrite is Some
        && db[k].rewrite is Some by {}
    assert forall|k: int| 0 <= k < ca.len() implies (#[trigger] ca[k]).pattern == cb[k].pattern
        && ca[k].constraints == cb[k].constraints && ca[k].scope == cb[k].scope && ca[k].rewrite is Some
        && cb[k].rewrite is Some by {}
    assert forall|k: int| 0 <= k < sa.len() implies (#[trigger] sa[k]).pattern == sb[k].pattern
        && sa[k].constraints == sb[k].constraints && sa[k].scope == sb[k].scope && sa[k].rewrite is Some
        && sb[k].rewrite is Some by {}
    let ra = rename_rules(class, name, kind, a);
    let rb = rename_rules(class, name, kind, b);
    assert forall|k: int| 0 <= k < ra.len() implies {
        let x = #[trigger] ra[k];
        let y = rb[k];
        &&& x.pattern == y.pattern
        &&& x.constraints == y.constraints
        &&& x.scope == y.scope
        &&& x.rewrite is Some
        &&& y.rewrite is Some
    } by {
        if k < da.len() {
            assert(ra[k] == da[k] && rb[k] == db[k]);
        } else if k < da.len() + ca.len() {
            assert(ra[k] == ca[k - da.len()] && rb[k] == cb[k - da.len()]);
        } else {
            assert(ra[k] == sa[k - da.len() - ca.len()] && rb[k] == sb[k - da.len() - ca.len()]);
        }
    }
}

/// The reporting form of a method notation covers exactly the sites its
/// renaming form does: the same rules in the same order, with the same
/// patterns, constraints and scopes, the one proposing an edit at each site
/// and the other proposing none.
pub proof fn law_report_covers_rename_sites(method: Seq<char>, new: Seq<char>)
    ensures
        spec_expand(method, None).len() == spec_expand(method, Some(new)).len(),
        forall|k: int|
            0 <= k < spec_expand(method, None).len() ==> {
                let report = #[trigger] spec_expand(method, None)[k];
                let rename = spec_expand(method, Some(new))[k];
                &&& report.pattern == rename.pattern
                &&& report.constraints == rename.constraints
                &&& report.scope == rename.scope
                &&& report.rewrite is None
                &&& rename.rewrite is Some
            },
{
    let b = vstd::utf8::encode_utf8(method);
    let class = parts_class(b);
    let name = decode(spec_parts(b).1);
    let kind = spec_parts(b).2;
    lemma_sites_ignore_new_name(class, name, kind, name, new);
}

/// A notation with no class, `#name`, has nothing to scope by: none of its
/// rules is confined to a class, and the explicit-receiver call is still
/// among them.
pub proof fn law_classless_notation_is_unscoped(method: Seq<char>, rename: Option<Seq<char>>)
    requires
        parts_class(vstd::utf8::encode_utf8(method)) is None,
    ensures
        forall|k: int|
            0 <= k < spec_expand(method, rename).len() ==> (#[trigger] spec_expand(method, rename)[k]).scope.inside
                is None,
        spec_expand(method, rename).len() > 0,
{
    let b = vstd::utf8::encode_utf8(method);
    let name = decode(spec_parts(b).1);
    let kind = spec_parts(b).2;
    let new = match rename {
        Some(n) => n,
        None => name,
    };
    let d = definition_rules(None, name, kind, new);
    let c = call_rules(None, name, kind, new);
    let r = rename_rules(None, name, kind, new);
    assert(scoped_rules(None, name, kind, new) =~= Seq::empty());
    assert(r =~= d + c);
    assert forall|k: int| 0 <= k < r.len() implies (#[trigger] r[k]).scope.inside is None by {
        if k < d.len() {
            assert(r[k] == d[k]);
        } else {
            assert(r[k] == c[k - d.len()]);
        }
    }
}

/// An instance method's definition is matched outside singleton context
/// only: `Account#name` must not rename a `def name` inside `class << self`.
pub proof fn law_instance_definition_avoids_the_singleton(method: Seq<char>, rename: Option<Seq<char>>)
    requires
        spec_parts(vstd::utf8::encode_utf8(method)).2 == Kind::Instance,
    ensures
        spec_expand(method, rename).len() > 0,
        spec_expand(method, rename)[0].scope.singleton == Some(false),
        spec_expand(method, rename)[0].pattern == "def "@ + decode(
            spec_parts(vstd::utf8::encode_utf8(method)).1,
        ) + params_body(),
{
    let b = vstd::utf8::encode_utf8(method);
    let class = parts_class(b);
    let name = decode(spec_parts(b).1);
    let new = match rename {
        Some(n) => n,
        None => name,
    };
    let r = rename_rules(class, name, Kind::Instance, new);
    assert(r[0] == definition_rules(class, name, Kind::Instance, new)[0]);
}

} // verus!

verus! {

/// Why a rule could not be loaded or is refused.
#[derive(Debug)]
pub enum RuleError {
    Unreadable { path: String, message: String },
    Malformed { path: String, message: String },
    /// A bare pattern was given with no replacement, for a command that needs
    /// one.
    NoTemplate,
    /// A directory was given as a rule pack but holds no rule files.
    EmptyPack { path: String },
    /// Neither a path nor anything in the built-in pack.
    NoSuchRule { name: String, known: Vec<String> },
}

/// Whether text contains a piece, as characters.
pub open spec fn has_piece(s: Seq<char>, piece: Seq<char>) -> bool {
    exists|i: int| 0 <= i && i + piece.len() <= s.len() && #[trigger] s.subrange(i, i + piece.len()) == piece
}

/// What a malformed rule says: where, what, and for the commonest YAML slip a
/// hint at the fix.
pub open spec fn malformed_text(path: Seq<char>, message: Seq<char>) -> Seq<char> {
    path + " is not a rule: "@ + message + if has_piece(message, "unknown field"@) && has_piece(message, "$"@) {
        "\n  A pattern inside `{ ... }` cannot hold a comma, brace or bracket: YAML claims those. Quote it, or use indented keys."@
    } else {
        Seq::empty()
    }
}

/// What a rule error says.
pub open spec fn rule_error_text(e: RuleError) -> Seq<char> {
    match e {
        RuleError::Unreadable { path, message } => "cannot read "@ + path@ + ": "@ + message@,
        RuleError::Malformed { path, message } => malformed_text(path@, message@),
        RuleError::EmptyPack { path } => "no .yml or .yaml rule files under "@ + path@,
        RuleError::NoSuchRule { name, known } => "no such file, directory, or built-in rule: "@ + name@
            + "\n  try one of: "@ + crate::text::spec_join(string_views(known@), ", "@),
        RuleError::NoTemplate =>
            "a replacement is required \u{2014} pass -r/--replace, or give a rule file with a `rewrite:` key"@,
    }
}

pub(crate) fn contains_piece(s: &str, piece: &str) -> (r: bool)
    ensures
        r == has_piece(s@, piece@),
{
    let n = s.unicode_len();
    let m = piece.unicode_len();
    if m > n {
        proof {
            assert forall|i: int| 0 <= i && i + piece@.len() <= s@.len() implies #[trigger] s@.subrange(i, i + piece@.len()) != piece@ by {}
        }
        return false;
    }
    if m == 0 {
        assert(s@.subrange(0int, 0int + piece@.len()) =~= piece@);
        return true;
    }
    let mut i: usize = 0;
    while i <= n - m
        invariant
            n == s@.len(),
            m == piece@.len(),
            1 <= m <= n,
            i <= n - m + 1,
            forall|j: int| 0 <= j < i ==> #[trigger] s@.subrange(j, j + m) != piece@,
        decreases n - m + 1 - i,
    {
        let window = s.substring_char(i, i + m);
        if str_eq(window, piece) {
            return true;
        }
        i += 1;
    }
    proof {
        assert forall|j: int| 0 <= j && j + piece@.len() <= s@.len() implies #[trigger] s@.subrange(j, j + piece@.len()) != piece@ by {
            assert(j < i);
        }
    }
    false
}

impl RuleError {
    /// The error as a sentence. A pattern cut in half by a YAML flow mapping
    /// arrives as an unknown field holding a `$`; that case also says what
    /// happened.
    pub fn text(&self) -> (s: String)
        ensures
            s@ == rule_error_text(*self),
    {
        match self {
            RuleError::Unreadable { path, message } => {
                let mut s = cat3("cannot read ", path.as_str(), ": ");
                s.append(message.as_str());
                s
            },
            RuleError::Malformed { path, message } => {
                let mut s = cat3(path.as_str(), " is not a rule: ", message.as_str());
                if contains_piece(message.as_str(), "unknown field") && contains_piece(message.as_str(), "$") {
                    s.append(
                        "\n  A pattern inside `{ ... }` cannot hold a comma, brace or bracket: YAML claims those. Quote it, or use indented keys.",
                    );
                }
                s
            },
            RuleError::EmptyPack { path } => cat("no .yml or .yaml rule files under ", path.as_str()),
            RuleError::NoSuchRule { name, known } => {
                let list = crate::text::join(known, ", ");
                let mut s = cat3("no such file, directory, or built-in rule: ", name.as_str(), "\n  try one of: ");
                s.append(list.as_str());
                s
            },
            RuleError::NoTemplate => owned(
                "a replacement is required \u{2014} pass -r/--replace, or give a rule file with a `rewrite:` key",
            ),
        }
    }
}

/// The capture names a prepared pattern binds.
pub open spec fn bound_names(b: Seq<(String, crate::prepare::Binding)>) -> Seq<Seq<char>>
    decreases b.len(),
{
    if b.len() == 0 {
        Seq::empty()
    } else {
        match b.last().1.name {
            Some(n) => bound_names(b.drop_last()).push(n@),
            None => bound_names(b.drop_last()),
        }
    }
}

/// Whether the pattern captures a name, its `$`s aside.
pub open spec fn knows(bound: Seq<Seq<char>>, name: Seq<char>) -> bool {
    exists|i: int| 0 <= i < bound.len() && #[trigger] bound[i] == crate::prepare::strip_dollars(name)
}

/// Whether a class name can be a Ruby constant: it starts with a capital.
pub open spec fn capitalised(c: Seq<char>) -> bool {
    c.len() > 0 && 'A' <= c[0] <= 'Z'
}

/// Whether a word is one of the spellings `is:` accepts.
pub open spec fn node_kind_name(c: Seq<char>) -> bool {
    c == "constant"@ || c == "symbol"@ || c == "string"@ || c == "integer"@ || c == "array"@ || c == "hash"@
}

/// The complaint about the first class among `roots`, from `k` on, that
/// cannot be one.
pub open spec fn root_error(key: Seq<char>, roots: Seq<Seq<char>>, k: int) -> Option<Seq<char>>
    decreases roots.len() - k,
{
    if k < 0 || k >= roots.len() {
        None
    } else if capitalised(roots[k]) {
        root_error(key, roots, k + 1)
    } else {
        Some(
            key + " names the class `"@ + roots[k]
                + "`, which cannot be one: a Ruby constant starts with a capital"@ + if node_kind_name(
                roots[k],
            ) {
                " -- did you mean `is: "@ + roots[k] + "`?"@
            } else {
                Seq::empty()
            },
        )
    }
}

/// The complaint about one constraint, if it has one.
pub open spec fn constraint_error(key: Seq<char>, c: ConstraintView, bound: Seq<Seq<char>>) -> Option<Seq<char>> {
    if !knows(bound, key) {
        Some("`where:` constrains "@ + key + ", which `match:` never captures"@)
    } else if c.same_name_as is Some && !knows(bound, c.same_name_as->0) {
        Some("`same_name_as: "@ + c.same_name_as->0 + "` names something `match:` never captures"@)
    } else if c.name is Some && c.name_not is Some {
        Some(key + " has both `name:` and `name_not:` -- an allowlist already says which"@)
    } else {
        root_error(key, spec_roots(c), 0)
    }
}

/// Whether the `k`th `where:` entry names a capture an earlier entry already
/// names: the entries are a map, one per capture.
pub open spec fn repeated(cs: Seq<(Seq<char>, ConstraintView)>, k: int) -> bool {
    exists|j: int| 0 <= j < k && #[trigger] cs[j].0 == cs[k].0
}

/// The complaint about the `k`th `where:` entry: a repeated key, or what is
/// wrong with its constraint.
pub open spec fn entry_error(cs: Seq<(Seq<char>, ConstraintView)>, bound: Seq<Seq<char>>, k: int) -> Option<Seq<char>> {
    if repeated(cs, k) {
        Some("`where:` names "@ + cs[k].0 + " twice"@)
    } else {
        constraint_error(cs[k].0, cs[k].1, bound)
    }
}

/// The complaint about the first constraint from `k` on that has one.
pub open spec fn constraints_error(cs: Seq<(Seq<char>, ConstraintView)>, bound: Seq<Seq<char>>, k: int) -> Option<Seq<char>>
    decreases cs.len() - k,
{
    if k < 0 || k >= cs.len() {
        None
    } else {
        match entry_error(cs, bound, k) {
            Some(m) => Some(m),
            None => constraints_error(cs, bound, k + 1),
        }
    }
}

/// The complaint about the first metavariable of a template, from `k` on,
/// that the pattern never captures.
pub open spec fn template_error(vars: Seq<crate::metavar::SpecMetavar>, bound: Seq<Seq<char>>, k: int) -> Option<Seq<char>>
    decreases vars.len() - k,
{
    if k < 0 || k >= vars.len() {
        None
    } else {
        match crate::metavar::name_chars(vars[k].name) {
            Some(n) => if !knows(bound, n) {
                Some("`rewrite:` uses $"@ + n + ", which `match:` never captures"@)
            } else {
                template_error(vars, bound, k + 1)
            },
            None => template_error(vars, bound, k + 1),
        }
    }
}

/// What is wrong with a rule given the names its pattern captures: a
/// constraint on something never captured, or contradictory, or naming a
/// class that cannot be one; a template using something never captured; a
/// Ruby floor that is not a version. The first of these, or nothing.
pub open spec fn validation_error(r: RuleView, bound: Seq<Seq<char>>) -> Option<Seq<char>> {
    match constraints_error(r.constraints, bound, 0) {
        Some(m) => Some(m),
        None => match (match r.rewrite {
            Some(t) => template_error(
                crate::metavar::spec_scan(vstd::utf8::encode_utf8(t)),
                bound,
                0,
            ),
            None => None,
        }) {
            Some(m) => Some(m),
            None => match r.ruby {
                Some(text) => if crate::ruby::spec_first_in(vstd::utf8::encode_utf8(text)) is None {
                    Some("`ruby: "@ + text + "` is not a version like 3.1"@)
                } else {
                    None
                },
                None => None,
            },
        },
    }
}

proof fn lemma_constraints_error(cs: Seq<(Seq<char>, ConstraintView)>, bound: Seq<Seq<char>>, k: int)
    requires
        0 <= k <= cs.len(),
    ensures
        constraints_error(cs, bound, k) is Some <==> exists|j: int|
            k <= j < cs.len() && (#[trigger] entry_error(cs, bound, j)) is Some,
    decreases cs.len() - k,
{
    if k < cs.len() {
        lemma_constraints_error(cs, bound, k + 1);
        if entry_error(cs, bound, k) is None {
            assert forall|j: int| k <= j < cs.len() && (#[trigger] entry_error(cs, bound, j)) is Some implies k + 1
                <= j by {}
        }
    }
}

/// A named metavariable the pattern never captures.
pub open spec fn uncaptured(bound: Seq<Seq<char>>, m: crate::metavar::SpecMetavar) -> bool {
    match crate::metavar::name_chars(m.name) {
        Some(n) => !knows(bound, n),
        None => false,
    }
}

proof fn lemma_template_error(vars: Seq<crate::metavar::SpecMetavar>, bound: Seq<Seq<char>>, k: int)
    requires
        0 <= k <= vars.len(),
    ensures
        template_error(vars, bound, k) is Some <==> exists|j: int|
            k <= j < vars.len() && uncaptured(bound, #[trigger] vars[j]),
    decreases vars.len() - k,
{
    if k < vars.len() {
        lemma_template_error(vars, bound, k + 1);
    }
}

/// A rule is refused exactly when something in it is wrong: a `where:` entry
/// that repeats an earlier entry's key, constrains or names a capture the
/// pattern never makes, is contradictory, or names a class that cannot be
/// one; a template using a
/// metavariable the pattern never captures; or a Ruby floor that is not a
/// version.
pub proof fn law_a_rule_is_refused_iff_something_is_wrong(r: RuleView, bound: Seq<Seq<char>>)
    ensures
        validation_error(r, bound) is Some <==> {
            ||| exists|j: int|
                0 <= j < r.constraints.len() && (repeated(r.constraints, j) || (#[trigger] constraint_error(
                    r.constraints[j].0,
                    r.constraints[j].1,
                    bound,
                )) is Some)
            ||| (r.rewrite matches Some(t) && exists|j: int|
                0 <= j < crate::metavar::spec_scan(vstd::utf8::encode_utf8(t)).len() && uncaptured(
                    bound,
                    #[trigger] crate::metavar::spec_scan(vstd::utf8::encode_utf8(t))[j],
                ))
            ||| (r.ruby matches Some(text) && crate::ruby::spec_first_in(vstd::utf8::encode_utf8(text)) is None)
        },
{
    lemma_constraints_error(r.constraints, bound, 0);
    if exists|j: int|
        0 <= j < r.constraints.len() && (repeated(r.constraints, j) || (#[trigger] constraint_error(
            r.constraints[j].0,
            r.constraints[j].1,
            bound,
        )) is Some) {
        let j = choose|j: int|
            0 <= j < r.constraints.len() && (repeated(r.constraints, j) || (#[trigger] constraint_error(
                r.constraints[j].0,
                r.constraints[j].1,
                bound,
            )) is Some);
        assert(entry_error(r.constraints, bound, j) is Some);
    }
    match r.rewrite {
        Some(t) => lemma_template_error(crate::metavar::spec_scan(vstd::utf8::encode_utf8(t)), bound, 0),
        None => {},
    }
}

/// The name a rule is reported under.
pub open spec fn rule_path(r: RuleView) -> Seq<char> {
    match r.id {
        Some(id) => id,
        None => "rule"@,
    }
}

fn bound_of(prepared: &crate::prepare::Prepared) -> (r: Vec<String>)
    ensures
        string_views(r@) == bound_names(prepared.bindings@),
{
    let mut out: Vec<String> = Vec::new();
    let mut k: usize = 0;
    while k < prepared.bindings.len()
        invariant
            k <= prepared.bindings@.len(),
            string_views(out@) == bound_names(prepared.bindings@.take(k as int)),
        decreases prepared.bindings@.len() - k,
    {
        proof {
            assert(prepared.bindings@.take(k + 1).drop_last() =~= prepared.bindings@.take(k as int));
        }
        let ghost was = string_views(out@);
        match &prepared.bindings[k].1.name {
            Some(n) => {
                out.push(owned(n.as_str()));
                proof {
                    assert(string_views(out@) =~= was.push(n@));
                }
            },
            None => {},
        }
        k += 1;
    }
    proof {
        assert(prepared.bindings@.take(prepared.bindings@.len() as int) =~= prepared.bindings@);
    }
    out
}

fn known(bound: &Vec<String>, name: &str) -> (r: bool)
    ensures
        r == knows(string_views(bound@), name@),
{
    let n = name.unicode_len();
    let mut k: usize = 0;
    while k < n && name.get_char(k) == '$'
        invariant
            k <= n == name@.len(),
            crate::prepare::lead_dollars(name@, 0) == crate::prepare::lead_dollars(name@, k as int),
        decreases n - k,
    {
        k += 1;
    }
    let bare = name.substring_char(k, n);
    let mut i: usize = 0;
    while i < bound.len()
        invariant
            i <= bound@.len(),
            bare@ == crate::prepare::strip_dollars(name@),
            forall|j: int| 0 <= j < i ==> #[trigger] string_views(bound@)[j] != bare@,
        decreases bound@.len() - i,
    {
        if str_eq(bound[i].as_str(), bare) {
            assert(string_views(bound@)[i as int] == bare@);
            return true;
        }
        i += 1;
    }
    false
}

fn is_node_kind_name(c: &str) -> (r: bool)
    ensures
        r == node_kind_name(c@),
{
    str_eq(c, "constant") || str_eq(c, "symbol") || str_eq(c, "string") || str_eq(c, "integer")
        || str_eq(c, "array") || str_eq(c, "hash")
}

fn first_root_error(key: &str, roots: &Vec<String>) -> (r: Option<String>)
    ensures
        opt_view(r) == root_error(key@, string_views(roots@), 0),
{
    let ghost rv = string_views(roots@);
    let mut k: usize = 0;
    while k < roots.len()
        invariant
            k <= roots@.len(),
            rv == string_views(roots@),
            root_error(key@, rv, 0) == root_error(key@, rv, k as int),
        decreases roots@.len() - k,
    {
        let class = roots[k].as_str();
        assert(rv[k as int] == class@);
        let up = class.unicode_len() > 0 && {
            let c = class.get_char(0);
            'A' <= c && c <= 'Z'
        };
        if !up {
            let mut s = cat3(key, " names the class `", class);
            s.append("`, which cannot be one: a Ruby constant starts with a capital");
            if is_node_kind_name(class) {
                s.append(" -- did you mean `is: ");
                s.append(class);
                s.append("`?");
            }
            return Some(s);
        }
        k += 1;
    }
    None
}

impl Rule {
    /// The constraint on a capture, if the rule has one.
    pub fn constraint(&self, key: &str) -> (r: Option<&Constraint>)
        ensures
            match r {
                Some(c) => exists|k: int|
                    0 <= k < self.constraints@.len() && self.constraints@[k].0@ == key@ && #[trigger] self.constraints@[k].1
                        == *c && forall|j: int| 0 <= j < k ==> self.constraints@[j].0@ != key@,
                None => forall|k: int| 0 <= k < self.constraints@.len() ==> #[trigger] self.constraints@[k].0@ != key@,
            },
    {
        let mut k: usize = 0;
        while k < self.constraints.len()
            invariant
                k <= self.constraints@.len(),
                forall|j: int| 0 <= j < k ==> #[trigger] self.constraints@[j].0@ != key@,
            decreases self.constraints@.len() - k,
        {
            if str_eq(self.constraints[k].0.as_str(), key) {
                return Some(&self.constraints[k].1);
            }
            k += 1;
        }
        None
    }

    /// Everything about a rule that can only be checked once its pattern is
    /// prepared, checked before a single file is read. Each of these used to
    /// degrade silently: a constraint on a capture the pattern never binds
    /// matched nothing, and a template metavariable it never binds rendered
    /// as empty.
    pub fn validate(&self, prepared: &crate::prepare::Prepared) -> (r: Result<(), RuleError>)
        ensures
            match validation_error(self.view(), bound_names(prepared.bindings@)) {
                None => r is Ok,
                Some(m) => r matches Err(RuleError::Malformed { path, message }) && path@ == rule_path(
                    self.view(),
                ) && message@ == m,
            },
    {
        let bound = bound_of(prepared);
        let ghost bv = bound_names(prepared.bindings@);
        let ghost cs = constraint_views(self.constraints@);
        let path = match &self.id {
            Some(id) => owned(id.as_str()),
            None => owned("rule"),
        };
        let mut k: usize = 0;
        while k < self.constraints.len()
            invariant
                k <= self.constraints@.len(),
                cs == constraint_views(self.constraints@),
                cs == self.view().constraints,
                path@ == rule_path(self.view()),
                bv == bound_names(prepared.bindings@),
                string_views(bound@) == bv,
                constraints_error(cs, bv, 0) == constraints_error(cs, bv, k as int),
            decreases self.constraints@.len() - k,
        {
            let key = self.constraints[k].0.as_str();
            let c = &self.constraints[k].1;
            assert(cs[k as int] == (key@, c.view()));
            let mut j: usize = 0;
            while j < k
                invariant
                    j <= k < self.constraints@.len(),
                    cs == constraint_views(self.constraints@),
                    key@ == cs[k as int].0,
                    forall|i: int| 0 <= i < j ==> cs[i].0 != cs[k as int].0,
                    path@ == rule_path(self.view()),
                    cs == self.view().constraints,
                    bv == bound_names(prepared.bindings@),
                    constraints_error(cs, bv, 0) == constraints_error(cs, bv, k as int),
                decreases k - j,
            {
                assert(cs[j as int].0 == self.constraints@[j as int].0@);
                if str_eq(self.constraints[j].0.as_str(), key) {
                    assert(repeated(cs, k as int));
                    return Err(RuleError::Malformed { path, message: cat3("`where:` names ", key, " twice") });
                }
                j += 1;
            }
            assert(!repeated(cs, k as int));
            if !known(&bound, key) {
                return Err(
                    RuleError::Malformed {
                        path,
                        message: cat3("`where:` constrains ", key, ", which `match:` never captures"),
                    },
                );
            }
            if let Some(other) = &c.same_name_as {
                if !known(&bound, other.as_str()) {
                    return Err(
                        RuleError::Malformed {
                            path,
                            message: cat3(
                                "`same_name_as: ",
                                other.as_str(),
                                "` names something `match:` never captures",
                            ),
                        },
                    );
                }
            }
            if c.name.is_some() && c.name_not.is_some() {
                return Err(
                    RuleError::Malformed {
                        path,
                        message: cat(key, " has both `name:` and `name_not:` -- an allowlist already says which"),
                    },
                );
            }
            let roots = c.hierarchy_roots();
            match first_root_error(key, &roots) {
                Some(m) => {
                    return Err(RuleError::Malformed { path, message: m });
                },
                None => {},
            }
            k += 1;
        }
        if let Some(template) = &self.rewrite {
            let vars = crate::metavar::scan(template.as_str());
            let ghost ms = crate::metavar::spec_scan(vstd::utf8::encode_utf8(template@));
            let mut i: usize = 0;
            while i < vars.len()
                invariant
                    i <= vars@.len() == ms.len(),
                    forall|j: int| 0 <= j < vars@.len() ==> #[trigger] vars@[j].is(ms[j]),
                    string_views(bound@) == bv,
                    bv == bound_names(prepared.bindings@),
                    path@ == rule_path(self.view()),
                    constraints_error(self.view().constraints, bv, 0) is None,
                    self.view().rewrite == Some(template@),
                    ms == crate::metavar::spec_scan(vstd::utf8::encode_utf8(template@)),
                    template_error(ms, bv, 0) == template_error(ms, bv, i as int),
                decreases vars@.len() - i,
            {
                assert(vars@[i as int].is(ms[i as int]));
                if let Some(name) = &vars[i].name {
                    if !known(&bound, name.as_str()) {
                        proof {
                            let msg = "`rewrite:` uses $"@ + name@ + ", which `match:` never captures"@;
                            assert(template_error(ms, bv, i as int) == Some(msg));
                            assert(template_error(ms, bv, 0) == Some(msg));
                            assert(ms == crate::metavar::spec_scan(vstd::utf8::encode_utf8(self.view().rewrite->0)));
                            assert(validation_error(self.view(), bv) == Some(msg));
                        }
                        return Err(
                            RuleError::Malformed {
                                path,
                                message: cat3("`rewrite:` uses $", name.as_str(), ", which `match:` never captures"),
                            },
                        );
                    }
                }
                i += 1;
            }
        }
        if let Some(text) = &self.ruby {
            if crate::ruby::Version::parse(text.as_str()).is_none() {
                return Err(
                    RuleError::Malformed {
                        path,
                        message: cat3("`ruby: ", text.as_str(), "` is not a version like 3.1"),
                    },
                );
            }
        }
        Ok(())
    }
}

/// Rules with no name of their own named after what produced them.
pub fn identified(rules: Vec<Rule>, id: &str) -> (r: Vec<Rule>)
    ensures
        r@.len() == rules@.len(),
        forall|k: int|
            0 <= k < r@.len() ==> (#[trigger] r@[k]).view() == (RuleView {
                id: Some(
                    match rules@[k].view().id {
                        Some(own) => own,
                        None => id@,
                    },
                ),
                ..rules@[k].view()
            }),
{
    let mut out: Vec<Rule> = Vec::new();
    let mut rest = rules;
    let ghost all = rest@;
    let mut reversed: Vec<Rule> = Vec::new();
    while rest.len() > 0
        invariant
            rest@.len() + reversed@.len() == all.len(),
            rest@ == all.take(rest@.len() as int),
            forall|j: int| 0 <= j < reversed@.len() ==> #[trigger] reversed@[j] == all[all.len() - 1 - j],
        decreases rest@.len(),
    {
        let r = rest.pop().unwrap();
        reversed.push(r);
        proof {
            assert(rest@ =~= all.take(rest@.len() as int));
        }
    }
    while reversed.len() > 0
        invariant
            out@.len() + reversed@.len() == all.len(),
            forall|j: int| 0 <= j < reversed@.len() ==> #[trigger] reversed@[j] == all[all.len() - 1 - j],
            forall|j: int| 0 <= j < out@.len() ==> (#[trigger] out@[j]).view() == (RuleView {
                id: Some(
                    match all[j].view().id {
                        Some(own) => own,
                        None => id@,
                    },
                ),
                ..all[j].view()
            }),
        decreases reversed@.len(),
    {
        let mut r = reversed.pop().unwrap();
        let ghost orig = r;
        if r.id.is_none() {
            r.id = Some(owned(id));
        }
        out.push(r);
    }
    out
}

} // verus!

verus! {

/// What is said when a `contains:` pattern does not prepare.
pub open spec fn contains_hint() -> Seq<char> {
    ". If this pattern holds a comma, a brace or a bracket inside a `{ ... }` mapping, YAML has eaten part of it -- quote it."@
}

/// A prepared sub-pattern as plain values: its capture (without `$`), the
/// substituted source's bytes, and the placeholder cases.
pub type PreparedView = (Seq<char>, Seq<u8>, Seq<crate::prepare::Case>);

/// The sub-patterns of the `contains:` constraints from `k` on, prepared;
/// or the path and message of the first that does not prepare.
pub open spec fn contained_from(cs: Seq<(Seq<char>, ConstraintView)>, k: int) -> Result<
    Seq<PreparedView>,
    (Seq<char>, Seq<char>),
>
    decreases cs.len() - k,
{
    if k < 0 || k >= cs.len() {
        Ok(Seq::empty())
    } else {
        match cs[k].1.contains {
            None => contained_from(cs, k + 1),
            Some(text) => match crate::prepare::spec_prepare_with(vstd::utf8::encode_utf8(text), Seq::empty()) {
                Err(m) => Err((cs[k].0 + " contains:"@, "pattern is not valid Ruby: "@ + m + contains_hint())),
                Ok((src, cases)) => match contained_from(cs, k + 1) {
                    Err(e) => Err(e),
                    Ok(rest) => Ok(seq![(crate::prepare::strip_dollars(cs[k].0), src, cases)] + rest),
                },
            },
        }
    }
}

/// A `contains:` sub-pattern that does not prepare.
pub open spec fn unpreparable(c: ConstraintView) -> bool {
    match c.contains {
        Some(text) => crate::prepare::spec_prepare_with(vstd::utf8::encode_utf8(text), Seq::empty()) is Err,
        None => false,
    }
}

/// The capture a constraint with a `contains:` is keyed by.
pub open spec fn contains_key(e: (Seq<char>, ConstraintView)) -> Option<Seq<char>> {
    if e.1.contains is Some {
        Some(crate::prepare::strip_dollars(e.0))
    } else {
        None
    }
}

#[verifier::spinoff_prover]
/// Whether the `i`th prepared sub-pattern is keyed `x`.
pub open spec fn keyed(all: Seq<PreparedView>, i: int, x: Seq<char>) -> bool {
    all[i].0 == x
}

proof fn lemma_contained_from(cs: Seq<(Seq<char>, ConstraintView)>, k: int)
    requires
        0 <= k <= cs.len(),
    ensures
        contained_from(cs, k) is Err <==> exists|j: int| k <= j < cs.len() && unpreparable(#[trigger] cs[j].1),
        contained_from(cs, k) matches Ok(all) ==> forall|i: int, x: Seq<char>|
            0 <= i < all.len() && #[trigger] keyed(all, i, x) ==> exists|j: int|
                k <= j < cs.len() && #[trigger] contains_key(cs[j]) == Some(x),
        contained_from(cs, k) matches Ok(all) ==> forall|j: int|
            k <= j < cs.len() && #[trigger] contains_key(cs[j]) is Some ==> exists|i: int|
                0 <= i < all.len() && Some((#[trigger] all[i]).0) == contains_key(cs[j]),
    decreases cs.len() - k,
{
    if k < cs.len() {
        lemma_contained_from(cs, k + 1);
        match contained_from(cs, k) {
            Ok(all) => {
                let rest = contained_from(cs, k + 1)->Ok_0;
                if cs[k].1.contains is Some {
                    assert(all == seq![all[0]] + rest);
                    assert(contains_key(cs[k]) == Some(all[0].0));
                    assert forall|i: int, x: Seq<char>| 0 <= i < all.len() && #[trigger] keyed(all, i, x) implies exists|j: int|
                        k <= j < cs.len() && #[trigger] contains_key(cs[j]) == Some(x) by {
                        if i > 0 {
                            assert(all[i] == rest[i - 1]);
                            assert(keyed(rest, i - 1, x));
                        }
                    }
                    assert forall|j: int| k <= j < cs.len() && #[trigger] contains_key(cs[j]) is Some implies exists|i: int|
                        0 <= i < all.len() && Some((#[trigger] all[i]).0) == contains_key(cs[j]) by {
                        if j > k {
                            let i = choose|i: int| 0 <= i < rest.len() && Some((#[trigger] rest[i]).0) == contains_key(cs[j]);
                            assert(all[i + 1] == rest[i]);
                        }
                    }
                } else {
                    assert(all == rest);
                    assert(contains_key(cs[k]) is None);
                    assert forall|i: int, x: Seq<char>| 0 <= i < all.len() && #[trigger] keyed(all, i, x) implies exists|j: int|
                        k <= j < cs.len() && #[trigger] contains_key(cs[j]) == Some(x) by {
                        assert(keyed(rest, i, x));
                    }
                }
            },
            Err(_) => {},
        }
    }
}

/// Preparing a rule's `contains:` sub-patterns fails exactly when one of
/// them does not prepare; when it succeeds, its keys are the captures, `$`
/// stripped, of the constraints that carry a `contains:`: every one of them,
/// and no other.
pub proof fn law_contained_keys_are_the_containing_captures(cs: Seq<(Seq<char>, ConstraintView)>)
    ensures
        contained_from(cs, 0) is Err <==> exists|j: int| 0 <= j < cs.len() && unpreparable(#[trigger] cs[j].1),
        contained_from(cs, 0) matches Ok(all) ==> forall|j: int|
            0 <= j < cs.len() && #[trigger] contains_key(cs[j]) is Some ==> exists|i: int|
                0 <= i < all.len() && Some((#[trigger] all[i]).0) == contains_key(cs[j]),
        contained_from(cs, 0) matches Ok(all) ==> forall|i: int, x: Seq<char>|
            0 <= i < all.len() && #[trigger] keyed(all, i, x) ==> exists|j: int|
                0 <= j < cs.len() && #[trigger] contains_key(cs[j]) == Some(x),
{
    lemma_contained_from(cs, 0);
}

/// Whether a prepared sub-pattern is the one a view describes.
pub open spec fn prepared_is(entry: (String, crate::prepare::Prepared), v: PreparedView, text: Seq<char>) -> bool {
    &&& entry.0@ == v.0
    &&& vstd::utf8::encode_utf8(entry.1.source@) == v.1
    &&& crate::prepare::bindings_view(entry.1.bindings@) == crate::prepare::spec_bindings(
        crate::metavar::spec_scan(vstd::utf8::encode_utf8(text)),
        v.2,
    )
}

pub(crate) fn strip_dollar_prefix(s: &str) -> (r: &str)
    ensures
        r@ == crate::prepare::strip_dollars(s@),
{
    let n = s.unicode_len();
    let mut k: usize = 0;
    while k < n && s.get_char(k) == '$'
        invariant
            k <= n == s@.len(),
            crate::prepare::lead_dollars(s@, 0) == crate::prepare::lead_dollars(s@, k as int),
        decreases n - k,
    {
        k += 1;
    }
    s.substring_char(k, n)
}

/// The `contains:` texts, in constraint order.
pub open spec fn contains_texts(cs: Seq<(Seq<char>, ConstraintView)>) -> Seq<Seq<char>>
    decreases cs.len(),
{
    if cs.len() == 0 {
        Seq::empty()
    } else {
        match cs.last().1.contains {
            Some(t) => contains_texts(cs.drop_last()).push(t),
            None => contains_texts(cs.drop_last()),
        }
    }
}

/// Results from earlier constraints, in front of those from later ones.
pub open spec fn prepend(acc: Seq<PreparedView>, r: Result<Seq<PreparedView>, (Seq<char>, Seq<char>)>) -> Result<
    Seq<PreparedView>,
    (Seq<char>, Seq<char>),
> {
    match r {
        Ok(rest) => Ok(acc + rest),
        Err(e) => Err(e),
    }
}

impl Rule {
    /// Sub-patterns this rule's `contains:` constraints need, prepared once,
    /// keyed by capture without its `$`. Loudly: a sub-pattern that does not
    /// prepare is an error, not a constraint that silently matches nothing.
    pub fn contained(&self) -> (r: Result<Vec<(String, crate::prepare::Prepared)>, RuleError>)
        requires
            forall|k: int|
                0 <= k < self.constraints@.len() && (#[trigger] self.constraints@[k]).1.contains is Some ==> 29
                    * vstd::utf8::encode_utf8(self.constraints@[k].1.contains->0@).len() < usize::MAX,
        ensures
            match contained_from(constraint_views(self.constraints@), 0) {
                Ok(all) => r matches Ok(v) && v@.len() == all.len() && forall|k: int|
                    0 <= k < all.len() ==> prepared_is(#[trigger] v@[k], all[k], contains_texts(constraint_views(self.constraints@))[k]),
                Err((path, message)) => r matches Err(RuleError::Malformed { path: p, message: m })
                    && p@ == path && m@ == message,
            },
    {
        let ghost cs = constraint_views(self.constraints@);
        let mut out: Vec<(String, crate::prepare::Prepared)> = Vec::new();
        let ghost mut acc: Seq<PreparedView> = Seq::empty();
        let ghost mut texts: Seq<Seq<char>> = Seq::empty();
        let mut k: usize = 0;
        proof {
            assert(cs.take(0) =~= Seq::<(Seq<char>, ConstraintView)>::empty());
            assert(contained_from(cs, 0) == prepend(acc, contained_from(cs, 0))) by {
                match contained_from(cs, 0) {
                    Ok(rest) => {
                        assert(acc + rest =~= rest);
                    },
                    Err(_) => {},
                }
            }
        }
        while k < self.constraints.len()
            invariant
                k <= self.constraints@.len(),
                cs == constraint_views(self.constraints@),
                forall|j: int|
                    0 <= j < self.constraints@.len() && (#[trigger] self.constraints@[j]).1.contains is Some ==> 29
                        * vstd::utf8::encode_utf8(self.constraints@[j].1.contains->0@).len() < usize::MAX,
                contained_from(cs, 0) == prepend(acc, contained_from(cs, k as int)),
                texts == contains_texts(cs.take(k as int)),
                out@.len() == acc.len() == texts.len(),
                forall|j: int| 0 <= j < out@.len() ==> prepared_is(#[trigger] out@[j], acc[j], texts[j]),
            decreases self.constraints@.len() - k,
        {
            let key = self.constraints[k].0.as_str();
            proof {
                assert(cs[k as int] == (key@, self.constraints@[k as int].1.view()));
                assert(cs.take(k + 1).drop_last() =~= cs.take(k as int));
                assert(cs.take(k + 1).last() == cs[k as int]);
            }
            match &self.constraints[k].1.contains {
                None => {},
                Some(text) => {
                    proof {
                        assert(self.constraints@[k as int].1.contains is Some);
                    }
                    match crate::prepare::prepare(text.as_str()) {
                        Err(e) => {
                            let mut message = e.text();
                            message.append(
                                ". If this pattern holds a comma, a brace or a bracket inside a `{ ... }` mapping, YAML has eaten part of it -- quote it.",
                            );
                            return Err(RuleError::Malformed { path: cat(key, " contains:"), message });
                        },
                        Ok(prepared) => {
                            let ghost v: PreparedView = (
                                crate::prepare::strip_dollars(key@),
                                vstd::utf8::encode_utf8(prepared.source@),
                                match crate::prepare::spec_prepare_with(vstd::utf8::encode_utf8(text@), Seq::empty()) {
                                    Ok((_, cases)) => cases,
                                    Err(_) => Seq::empty(),
                                },
                            );
                            out.push((owned(strip_dollar_prefix(key)), prepared));
                            proof {
                                let old_acc = acc;
                                acc = acc.push(v);
                                texts = texts.push(text@);
                                match contained_from(cs, k + 1) {
                                    Ok(rest) => {
                                        assert(old_acc + (seq![v] + rest) =~= acc + rest);
                                    },
                                    Err(_) => {},
                                }
                            }
                        },
                    }
                },
            }
            k += 1;
        }
        proof {
            assert(cs.take(cs.len() as int) =~= cs);
            match contained_from(cs, 0) {
                Ok(all) => {
                    assert(acc + Seq::<PreparedView>::empty() =~= acc);
                },
                Err(_) => {},
            }
        }
        Ok(out)
    }
}

/// A fixture is refused exactly when it claims both an output and no
/// change, says `unchanged: false`, asserts nothing, asks for findings of a
/// set that only rewrites, asks for an output of a set that only reports,
/// or counts residue of a set that moves no name.
pub proof fn law_a_case_is_refused_iff_it_asks_what_the_set_cannot_give(
    c: CaseView,
    rewrites: bool,
    reports: bool,
    moves: bool,
)
    ensures
        spec_check(c, rewrites, reports, moves) is Ok <==> {
            &&& !(c.output is Some && c.unchanged is Some)
            &&& c.unchanged != Some(false)
            &&& (c.output is Some || c.unchanged is Some || c.finds is Some || c.residue is Some)
            &&& (c.finds is None || reports)
            &&& ((c.output is None && c.unchanged is None) || rewrites)
            &&& (c.residue is None || moves)
        },
{
}

} // verus!
