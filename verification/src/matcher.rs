//! What a match is judged by once it has matched structurally, and how the
//! judgement is reported.
//!
//! A rule author iterating on a `where:` clause needs to know which constraint
//! declined a site and what the binding actually was.

use crate::rule::NodeKind;
use crate::text::{cat, cat3, decimal, join, owned, spec_decimal, spec_join, string_views};
use vstd::prelude::*;

verus! {

/// A name or value a node carries that is not one of its children.
///
/// An identifier is compared by its bytes rather than by an interned id, since
/// a pattern and its target come from different parses; a literal by its
/// unescaped value, so `"x"` equals `'x'`; a number by its normalised digits,
/// so `1_000` equals `1000`.
#[derive(Debug, Clone, PartialEq, Eq)]
pub enum Atom {
    Name(Vec<u8>),
    Value(Vec<u8>),
    Number(String),
}

impl Atom {
    /// An identifier, by its bytes.
    pub fn name(bytes: &[u8]) -> (a: Atom)
        ensures
            a matches Atom::Name(v) && v@ == bytes@,
    {
        Atom::Name(bytes_vec(bytes))
    }

    /// A literal's unescaped value.
    pub fn value(bytes: &[u8]) -> (a: Atom)
        ensures
            a matches Atom::Value(v) && v@ == bytes@,
    {
        Atom::Value(bytes_vec(bytes))
    }
}

/// A copy of a byte string.
pub fn bytes_vec(bytes: &[u8]) -> (v: Vec<u8>)
    ensures
        v@ == bytes@,
{
    let mut out: Vec<u8> = Vec::new();
    let mut k: usize = 0;
    while k < bytes.len()
        invariant
            k <= bytes@.len(),
            out@ == bytes@.take(k as int),
        decreases bytes@.len() - k,
    {
        out.push(bytes[k]);
        proof {
            assert(bytes@.take(k + 1) =~= bytes@.take(k as int).push(bytes@[k as int]));
        }
        k += 1;
    }
    assert(bytes@.take(bytes@.len() as int) =~= bytes@);
    out
}

/// Whether a receiver is the class object or an instance of it.
///
/// `Account.display_name` and `account.display_name` name different methods;
/// collapsing them made a rename of one rewrite the other.
#[derive(Debug, Clone, PartialEq, Eq)]
pub enum Receiver {
    /// An instance, as in `Account#display_name`.
    Instance(String),
    /// The class object itself, as in `Account.display_name`.
    Class(String),
}

impl Receiver {
    /// The class the receiver belongs to, either way.
    pub fn class_name(&self) -> (r: &str)
        ensures
            r@ == match self {
                Receiver::Instance(n) => n@,
                Receiver::Class(n) => n@,
            },
    {
        match self {
            Receiver::Instance(n) => n.as_str(),
            Receiver::Class(n) => n.as_str(),
        }
    }

    pub fn is_instance(&self) -> (r: bool)
        ensures
            r == (self is Instance),
    {
        match self {
            Receiver::Instance(_) => true,
            Receiver::Class(_) => false,
        }
    }
}

/// The scope entry a `class << self` body contributes.
pub open spec fn singleton_marker() -> Seq<char> {
    "<<self"@
}

/// The scope entries that name a class or module, in order.
pub open spec fn named_scopes(scope: Seq<Seq<char>>) -> Seq<Seq<char>>
    decreases scope.len(),
{
    if scope.len() == 0 {
        Seq::empty()
    } else if scope.last() == singleton_marker() {
        named_scopes(scope.drop_last())
    } else {
        named_scopes(scope.drop_last()).push(scope.last())
    }
}

/// The class a match sits in: its enclosing names joined with `::`, leaving
/// out singleton bodies, or none at the top level. `Account::Row` is a
/// different class from `Account`, so the whole path is the answer.
pub open spec fn spec_enclosing_class(scope: Seq<Seq<char>>) -> Option<Seq<char>> {
    if named_scopes(scope).len() == 0 {
        None
    } else {
        Some(spec_join(named_scopes(scope), "::"@))
    }
}

/// The class a match sits in, from its enclosing scopes, outermost first.
pub fn enclosing_class(scope: &Vec<String>) -> (r: Option<String>)
    ensures
        crate::text::opt_view(r) == spec_enclosing_class(string_views(scope@)),
{
    let ghost sv = string_views(scope@);
    let mut named: Vec<String> = Vec::new();
    let mut k: usize = 0;
    while k < scope.len()
        invariant
            k <= scope@.len(),
            sv == string_views(scope@),
            string_views(named@) == named_scopes(sv.take(k as int)),
        decreases scope@.len() - k,
    {
        proof {
            assert(sv.take(k + 1).drop_last() =~= sv.take(k as int));
            assert(sv.take(k + 1).last() == scope@[k as int]@);
        }
        let marker = crate::text::str_eq(scope[k].as_str(), "<<self");
        if !marker {
            let ghost before = string_views(named@);
            named.push(owned(scope[k].as_str()));
            proof {
                assert(string_views(named@) =~= before.push(scope@[k as int]@));
            }
        }
        k += 1;
    }
    proof {
        assert(sv.take(scope@.len() as int) =~= sv);
    }
    if named.len() == 0 {
        None
    } else {
        Some(join(&named, "::"))
    }
}

/// Why the match was in the wrong place.
#[derive(Debug, PartialEq, Eq)]
pub enum ScopeMiss {
    Inside { wanted: String, found: Vec<String> },
    Singleton { wanted: bool },
}

/// Which constraint declined the binding, and what it saw.
#[derive(Debug, PartialEq, Eq)]
pub enum ConstraintMiss {
    Name { actual: Option<String>, allowed: Vec<String> },
    NameNot { actual: String },
    /// `resolved: None` is the distinction worth having: "the receiver did not
    /// resolve at all" and "it resolved to the wrong class" have different
    /// fixes.
    Type { resolved: Option<String>, wanted: String, wrong_kind: bool },
    Is { wanted: NodeKind },
    Contains { pattern: String },
    Length { actual: Option<usize>, wanted: usize },
    SameNameAs { other: String },
}

/// The judgement on one structural match.
#[derive(Debug, PartialEq, Eq)]
pub enum Verdict {
    /// Every constraint holds.
    Holds,
    /// The match is in the wrong place; no rebinding can fix that.
    WrongScope(ScopeMiss),
    /// This capture's binding failed a constraint; a different binding of the
    /// same metavariable might satisfy it.
    BadBinding { capture: String, miss: ConstraintMiss },
    /// A rule that validation should have refused before any file was read.
    Bug(&'static str),
}

/// A node kind as it is spelled in Rust's debug output.
pub open spec fn kind_debug(k: NodeKind) -> Seq<char> {
    match k {
        NodeKind::Constant => "Constant"@,
        NodeKind::Symbol => "Symbol"@,
        NodeKind::String => "String"@,
        NodeKind::Integer => "Integer"@,
        NodeKind::Array => "Array"@,
        NodeKind::Hash => "Hash"@,
    }
}

/// The name of the predicate a verdict is about, as a stable field value.
pub open spec fn spec_constraint(v: Verdict) -> Seq<char> {
    match v {
        Verdict::Holds => "none"@,
        Verdict::Bug(_) => "rule-bug"@,
        Verdict::WrongScope(ScopeMiss::Inside { .. }) => "inside"@,
        Verdict::WrongScope(ScopeMiss::Singleton { .. }) => "singleton"@,
        Verdict::BadBinding { miss, .. } => match miss {
            ConstraintMiss::Name { .. } => "name"@,
            ConstraintMiss::NameNot { .. } => "name_not"@,
            ConstraintMiss::Type { .. } => "type"@,
            ConstraintMiss::Is { .. } => "is"@,
            ConstraintMiss::Contains { .. } => "contains"@,
            ConstraintMiss::Length { .. } => "length"@,
            ConstraintMiss::SameNameAs { .. } => "same_name_as"@,
        },
    }
}

/// What the constraint wanted and what it saw, in one line.
pub open spec fn spec_detail(v: Verdict) -> Seq<char> {
    match v {
        Verdict::Holds => Seq::empty(),
        Verdict::Bug(why) => why@,
        Verdict::WrongScope(ScopeMiss::Inside { wanted, found }) => "needs `inside: "@ + wanted@
            + "`, found "@ + if found@.len() == 0 {
            "the top level"@
        } else {
            spec_join(string_views(found@), "::"@)
        },
        Verdict::WrongScope(ScopeMiss::Singleton { wanted }) => if wanted {
            "needs `singleton: true`, found an instance method"@
        } else {
            "needs `singleton: false`, found a singleton method"@
        },
        Verdict::BadBinding { miss, .. } => match miss {
            ConstraintMiss::Name { actual, allowed } => match actual {
                Some(a) => "`"@ + a@ + "` is not one of "@ + spec_join(string_views(allowed@), ", "@),
                None => "no identifier here; `name:` wants one of "@ + spec_join(
                    string_views(allowed@),
                    ", "@,
                ),
            },
            ConstraintMiss::Type { resolved, wanted, wrong_kind } => match resolved {
                None => "receiver did not resolve; `type: "@ + wanted@
                    + "` only matches receivers rwr can resolve"@,
                Some(got) => if wrong_kind {
                    "resolved to "@ + got@ + ", but as the other of instance/class than `type: "@
                        + wanted@ + "` means"@
                } else {
                    "resolved to "@ + got@ + ", not "@ + wanted@
                },
            },
            ConstraintMiss::NameNot { actual } => "`"@ + actual@ + "` is excluded by `name_not:`"@,
            ConstraintMiss::Is { wanted } => "not "@ + kind_debug(wanted),
            ConstraintMiss::Contains { pattern } => "does not contain `"@ + pattern@ + "`"@,
            ConstraintMiss::Length { actual, wanted } => match actual {
                Some(a) => spec_decimal(a as nat) + " character(s), not "@ + spec_decimal(
                    wanted as nat,
                ),
                None => "not a literal, so `length: "@ + spec_decimal(wanted as nat)
                    + "` cannot apply"@,
            },
            ConstraintMiss::SameNameAs { other } => "does not name the same identifier as "@
                + other@,
        },
    }
}

fn kind_text(k: NodeKind) -> (r: &'static str)
    ensures
        r@ == kind_debug(k),
{
    match k {
        NodeKind::Constant => "Constant",
        NodeKind::Symbol => "Symbol",
        NodeKind::String => "String",
        NodeKind::Integer => "Integer",
        NodeKind::Array => "Array",
        NodeKind::Hash => "Hash",
    }
}

impl Verdict {
    /// The capture this verdict is about, with its `$`, if it is about one.
    pub fn capture(&self) -> (r: Option<String>)
        ensures
            crate::text::opt_view(r) == match self {
                Verdict::BadBinding { capture, .. } => Some("$"@ + capture@),
                _ => None::<Seq<char>>,
            },
    {
        match self {
            Verdict::BadBinding { capture, .. } => Some(cat("$", capture.as_str())),
            _ => None,
        }
    }

    /// Which predicate declined the match, as a stable field value.
    pub fn constraint(&self) -> (r: &'static str)
        ensures
            r@ == spec_constraint(*self),
    {
        match self {
            Verdict::Holds => "none",
            Verdict::Bug(_) => "rule-bug",
            Verdict::WrongScope(ScopeMiss::Inside { .. }) => "inside",
            Verdict::WrongScope(ScopeMiss::Singleton { .. }) => "singleton",
            Verdict::BadBinding { miss, .. } => match miss {
                ConstraintMiss::Name { .. } => "name",
                ConstraintMiss::NameNot { .. } => "name_not",
                ConstraintMiss::Type { .. } => "type",
                ConstraintMiss::Is { .. } => "is",
                ConstraintMiss::Contains { .. } => "contains",
                ConstraintMiss::Length { .. } => "length",
                ConstraintMiss::SameNameAs { .. } => "same_name_as",
            },
        }
    }

    /// What the constraint wanted and what it saw, in one line. An
    /// unresolved receiver reads differently from a wrongly resolved one.
    pub fn detail(&self) -> (r: String)
        ensures
            r@ == spec_detail(*self),
    {
        match self {
            Verdict::Holds => String::new(),
            Verdict::Bug(why) => owned(why),
            Verdict::WrongScope(ScopeMiss::Inside { wanted, found }) => {
                let found = if found.len() == 0 {
                    owned("the top level")
                } else {
                    join(found, "::")
                };
                let mut s = cat3("needs `inside: ", wanted.as_str(), "`, found ");
                s.append(found.as_str());
                s
            },
            Verdict::WrongScope(ScopeMiss::Singleton { wanted }) => {
                if *wanted {
                    owned("needs `singleton: true`, found an instance method")
                } else {
                    owned("needs `singleton: false`, found a singleton method")
                }
            },
            Verdict::BadBinding { miss, .. } => match miss {
                ConstraintMiss::Name { actual, allowed } => {
                    let list = join(allowed, ", ");
                    match actual {
                        Some(a) => {
                            let mut s = cat3("`", a.as_str(), "` is not one of ");
                            s.append(list.as_str());
                            s
                        },
                        None => cat("no identifier here; `name:` wants one of ", list.as_str()),
                    }
                },
                ConstraintMiss::Type { resolved, wanted, wrong_kind } => match resolved {
                    None => cat3(
                        "receiver did not resolve; `type: ",
                        wanted.as_str(),
                        "` only matches receivers rwr can resolve",
                    ),
                    Some(got) => {
                        if *wrong_kind {
                            let mut s = cat3(
                                "resolved to ",
                                got.as_str(),
                                ", but as the other of instance/class than `type: ",
                            );
                            s.append(wanted.as_str());
                            s.append("` means");
                            s
                        } else {
                            let mut s = cat3("resolved to ", got.as_str(), ", not ");
                            s.append(wanted.as_str());
                            s
                        }
                    },
                },
                ConstraintMiss::NameNot { actual } => cat3(
                    "`",
                    actual.as_str(),
                    "` is excluded by `name_not:`",
                ),
                ConstraintMiss::Is { wanted } => cat("not ", kind_text(*wanted)),
                ConstraintMiss::Contains { pattern } => cat3(
                    "does not contain `",
                    pattern.as_str(),
                    "`",
                ),
                ConstraintMiss::Length { actual, wanted } => {
                    let w = decimal(*wanted);
                    match actual {
                        Some(a) => {
                            let mut s = decimal(*a);
                            s.append(" character(s), not ");
                            s.append(w.as_str());
                            s
                        },
                        None => cat3(
                            "not a literal, so `length: ",
                            w.as_str(),
                            "` cannot apply",
                        ),
                    }
                },
                ConstraintMiss::SameNameAs { other } => cat(
                    "does not name the same identifier as ",
                    other.as_str(),
                ),
            },
        }
    }
}

} // verus!
