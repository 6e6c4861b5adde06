//! Resolving a `RULE` argument into rules.
//!
//! A rule argument is a pattern with a template, a rename in Ruby's method
//! notation, a rule file, a directory of rule files (a pack), or the name of
//! part of the built-in pack. Which of these it is, and what each yields, is
//! decided here; reading files and parsing YAML happen outside the library,
//! which is told what the argument names on disk and hands back what to read.

use crate::rule::{
    constraint_views, identified, method_notation, no_scope, rule_views, MethodRename, Rule,
    RuleError, RuleView, ScopeView,
};
use crate::source::{path_components, path_strip_prefix};
use crate::text::{bytes_less, owned, str_eq, string_views};
use vstd::prelude::*;
use vstd::string::{StrSliceExecFns, StringSliceAdditionalSpecFns};

verus! {

/// What a rule argument names on disk.
#[derive(Debug, Clone, Copy, PartialEq, Eq, Structural)]
pub enum Target {
    Directory,
    File,
    Missing,
}

/// What a rule argument resolves to.
#[derive(Debug)]
pub enum Load {
    /// The rules themselves.
    Rules(Vec<Rule>),
    /// A directory of rule files: every `.yml` and `.yaml` under it.
    Pack,
    /// One rule file, its rules named after the file.
    File,
    /// Part of the built-in pack.
    Builtin,
}

/// Rules named after what produced them, unless they name themselves.
pub open spec fn with_id(rs: Seq<RuleView>, id: Seq<char>) -> Seq<RuleView> {
    rs.map_values(|r: RuleView| RuleView {
        id: Some(
            match r.id {
                Some(own) => own,
                None => id,
            },
        ),
        ..r
    })
}

/// A rule from a bare pattern and a template.
pub open spec fn inline_rule(pattern: Seq<char>, template: Seq<char>) -> RuleView {
    RuleView {
        id: None,
        description: None,
        pattern,
        rewrite: Some(template),
        constraints: Seq::empty(),
        scope: no_scope(),
        ruby: None,
        unsafe_because: None,
        tests: Seq::empty(),
    }
}

/// What a rule argument resolves to, as plain values.
pub enum LoadView {
    Rules(Seq<RuleView>),
    Pack,
    File,
    Builtin,
}

/// What a rule argument resolves to.
///
/// With a template, `Account#display_name -r full_name` is a rename in Ruby's
/// notation and expands to the whole rule set a rename needs; anything else
/// is a pattern. Without one, a path wins -- a directory is a pack, a file a
/// rule file -- and only then is the argument read as the notation, and
/// failing that as part of the built-in pack.
pub open spec fn spec_load_all(rule: Seq<char>, replace: Option<Seq<char>>, target: Target) -> LoadView {
    let b = vstd::utf8::encode_utf8(crate::text::spec_trim(rule));
    let notation = crate::rule::spec_notation(b);
    let method = crate::text::spec_trim(rule);
    match replace {
        Some(t) => if notation {
            LoadView::Rules(with_id(crate::rule::spec_expand(method, Some(t)), rule))
        } else {
            LoadView::Rules(seq![inline_rule(rule, t)])
        },
        None => match target {
            Target::Directory => LoadView::Pack,
            Target::File => LoadView::File,
            Target::Missing => if notation {
                LoadView::Rules(with_id(crate::rule::spec_expand(method, None), rule))
            } else {
                LoadView::Builtin
            },
        },
    }
}

pub open spec fn load_view(l: Load) -> LoadView {
    match l {
        Load::Rules(v) => LoadView::Rules(rule_views(v@)),
        Load::Pack => LoadView::Pack,
        Load::File => LoadView::File,
        Load::Builtin => LoadView::Builtin,
    }
}

/// Resolve a rule argument, given what it names on disk.
pub fn load_all(rule: &str, replace: Option<&str>, target: Target) -> (r: Load)
    ensures
        load_view(r) == spec_load_all(rule@, crate::rule::str_opt_view(replace), target),
{
    match replace {
        Some(template) => {
            match method_notation(rule) {
                Some(mut method) => {
                    method.rename = Some(owned(template));
                    let rules = identified(method.expand(), rule);
                    proof {
                        assert(rule_views(rules@) =~= with_id(
                            crate::rule::spec_expand(crate::text::spec_trim(rule@), Some(template@)),
                            rule@,
                        ));
                    }
                    Load::Rules(rules)
                },
                None => {
                    let r = Rule {
                        id: None,
                        description: None,
                        pattern: owned(rule),
                        rewrite: Some(owned(template)),
                        constraints: Vec::new(),
                        scope: crate::rule::Scope { inside: None, singleton: None, subclasses: None },
                        ruby: None,
                        unsafe_because: None,
                        tests: Vec::new(),
                    };
                    let mut v: Vec<Rule> = Vec::new();
                    v.push(r);
                    proof {
                        assert(constraint_views(v@[0].constraints@) =~= Seq::empty());
                        assert(crate::rule::case_views(v@[0].tests@) =~= Seq::empty());
                        assert(rule_views(v@) =~= seq![inline_rule(rule@, template@)]);
                    }
                    Load::Rules(v)
                },
            }
        },
        None => match target {
            Target::Directory => Load::Pack,
            Target::File => Load::File,
            Target::Missing => match method_notation(rule) {
                Some(method) => {
                    let rules = identified(method.expand(), rule);
                    proof {
                        assert(rule_views(rules@) =~= with_id(
                            crate::rule::spec_expand(crate::text::spec_trim(rule@), None),
                            rule@,
                        ));
                    }
                    Load::Rules(rules)
                },
                None => Load::Builtin,
            },
        },
    }
}

/// The family an id belongs to: the part before its first `/`, if it has one.
pub open spec fn family_of(id: Seq<char>) -> Option<Seq<char>> {
    let b = vstd::utf8::encode_utf8(id);
    match crate::text::first_occ(b, seq![47u8], 0) {
        Some(i) => Some(vstd::utf8::decode_utf8(b.subrange(0, i))),
        None => None,
    }
}

/// `all`, then each family of the first `k` ids once, in first-seen order.
pub open spec fn families_upto(ids: Seq<Seq<char>>, k: int) -> Seq<Seq<char>>
    decreases k,
{
    if k <= 0 {
        seq!["all"@]
    } else {
        let acc = families_upto(ids, k - 1);
        match family_of(ids[k - 1]) {
            Some(f) => if acc.contains(f) {
                acc
            } else {
                acc.push(f)
            },
            None => acc,
        }
    }
}

/// What a caller may ask the built-in pack for: `all`, each family, and each
/// full id.
pub open spec fn spec_families(ids: Seq<Seq<char>>) -> Seq<Seq<char>> {
    families_upto(ids, ids.len() as int) + ids
}

proof fn lemma_families_upto(ids: Seq<Seq<char>>, k: int)
    requires
        0 <= k <= ids.len(),
    ensures
        families_upto(ids, k).len() >= 1,
        families_upto(ids, k)[0] == "all"@,
        families_upto(ids, k).no_duplicates(),
        forall|j: int| 0 <= j < k && family_of(ids[j]) is Some ==> #[trigger] families_upto(ids, k).contains(
            family_of(ids[j])->0,
        ),
        forall|i: int|
            1 <= i < families_upto(ids, k).len() ==> exists|j: int|
                0 <= j < k && family_of(ids[j]) == Some(#[trigger] families_upto(ids, k)[i]),
    decreases k,
{
    if k > 0 {
        lemma_families_upto(ids, k - 1);
        let acc = families_upto(ids, k - 1);
        assert forall|i: int| 1 <= i < families_upto(ids, k).len() implies exists|j: int|
            0 <= j < k && family_of(ids[j]) == Some(#[trigger] families_upto(ids, k)[i]) by {
            if i < acc.len() {
                assert(families_upto(ids, k)[i] == acc[i]);
                let j = choose|j: int| 0 <= j < k - 1 && family_of(ids[j]) == Some(acc[i]);
                assert(0 <= j < k && family_of(ids[j]) == Some(families_upto(ids, k)[i]));
            } else {
                assert(family_of(ids[k - 1]) == Some(families_upto(ids, k)[i]));
            }
        }
        assert forall|j: int| 0 <= j < k && family_of(ids[j]) is Some implies #[trigger] families_upto(
            ids,
            k,
        ).contains(family_of(ids[j])->0) by {
            if j < k - 1 {
                let f = family_of(ids[j])->0;
                assert(acc.contains(f));
                let i = choose|i: int| 0 <= i < acc.len() && acc[i] == f;
                assert(families_upto(ids, k)[i] == f);
            } else {
                let f = family_of(ids[j])->0;
                if !acc.contains(f) {
                    assert(families_upto(ids, k)[acc.len() as int] == f);
                }
            }
        }
    } else {
        assert(families_upto(ids, 0) =~= seq!["all"@]);
    }
}

/// Whether the `j`th id belongs to family `f`.
pub open spec fn of_family(ids: Seq<Seq<char>>, j: int, f: Seq<char>) -> bool {
    family_of(ids[j]) == Some(f)
}

/// Families listed in the order they first appear among the first `k`
/// ids: an id of an earlier family comes before every id of a later one's.
pub open spec fn first_seen_order(ids: Seq<Seq<char>>, heads: Seq<Seq<char>>, k: int) -> bool {
    forall|a: int, f: Seq<char>, b: int, j: int|
        #![trigger names_head(heads, a, f), of_family(ids, j, heads[b])]
        1 <= a < b < heads.len() && names_head(heads, a, f) && 0 <= j < k && of_family(ids, j, heads[b])
            ==> exists|i: int| 0 <= i < j && #[trigger] of_family(ids, i, f)
}

/// Whether the `a`th head is `f`.
pub open spec fn names_head(heads: Seq<Seq<char>>, a: int, f: Seq<char>) -> bool {
    heads[a] == f
}

proof fn lemma_families_first_seen(ids: Seq<Seq<char>>, k: int)
    requires
        0 <= k <= ids.len(),
    ensures
        first_seen_order(ids, families_upto(ids, k), k),
    decreases k,
{
    if k > 0 {
        lemma_families_first_seen(ids, k - 1);
        lemma_families_upto(ids, k - 1);
        lemma_families_upto(ids, k);
        let acc = families_upto(ids, k - 1);
        let heads = families_upto(ids, k);
        assert forall|a: int, f: Seq<char>, b: int, j: int|
            #![trigger names_head(heads, a, f), of_family(ids, j, heads[b])]
            1 <= a < b < heads.len() && names_head(heads, a, f) && 0 <= j < k && of_family(ids, j, heads[b])
                implies exists|i: int| 0 <= i < j && #[trigger] of_family(ids, i, f) by {
            assert(heads[a] == acc[a]);
            assert(names_head(acc, a, f));
            if b < acc.len() {
                assert(heads[b] == acc[b]);
                if j < k - 1 {
                    assert(of_family(ids, j, acc[b]));
                } else {
                    let j0 = choose|j0: int| 0 <= j0 < k - 1 && family_of(ids[j0]) == Some(#[trigger] acc[b]);
                    assert(of_family(ids, j0, acc[b]));
                    let i = choose|i: int| 0 <= i < j0 && #[trigger] of_family(ids, i, f);
                    assert(of_family(ids, i, f));
                }
            } else {
                assert(b == acc.len());
                assert(heads[b] == family_of(ids[k - 1])->0);
                if j < k - 1 {
                    assert(acc.contains(family_of(ids[j])->0));
                    assert(false);
                } else {
                    let i = choose|i: int| 0 <= i < k - 1 && family_of(ids[i]) == Some(#[trigger] acc[a]);
                    assert(of_family(ids, i, f));
                }
            }
        }
    } else {
        assert(families_upto(ids, 0) =~= seq!["all"@]);
    }
}

/// What the built-in pack answers to: `all` first, then each family of its
/// ids once, in the order the families first appear (an id of an earlier
/// family comes before every id of a later one's) and never `all` again,
/// then every id in pack order.
pub proof fn law_families_order(ids: Seq<Seq<char>>)
    ensures
        ({
            let fs = spec_families(ids);
            let heads = families_upto(ids, ids.len() as int);
            &&& fs == heads + ids
            &&& heads[0] == "all"@
            &&& heads.no_duplicates()
            &&& forall|j: int| 0 <= j < ids.len() && family_of(ids[j]) is Some ==> #[trigger] heads.contains(
                family_of(ids[j])->0,
            )
            &&& forall|i: int|
                1 <= i < heads.len() ==> exists|j: int|
                    0 <= j < ids.len() && family_of(ids[j]) == Some(#[trigger] heads[i])
            &&& first_seen_order(ids, heads, ids.len() as int)
        }),
{
    lemma_families_upto(ids, ids.len() as int);
    lemma_families_first_seen(ids, ids.len() as int);
}

pub open spec fn pack_ids(pack: Seq<(String, String)>) -> Seq<Seq<char>> {
    pack.map_values(|e: (String, String)| e.0@)
}

fn holds(list: &Vec<String>, s: &str) -> (r: bool)
    ensures
        r == string_views(list@).contains(s@),
{
    let mut k: usize = 0;
    while k < list.len()
        invariant
            k <= list@.len(),
            forall|j: int| 0 <= j < k ==> string_views(list@)[j] != s@,
        decreases list@.len() - k,
    {
        if str_eq(list[k].as_str(), s) {
            assert(string_views(list@)[k as int] == s@);
            return true;
        }
        k += 1;
    }
    false
}

fn family(id: &str) -> (r: Option<&str>)
    ensures
        crate::rule::str_opt_view(r) == family_of(id@),
{
    let b = id.as_bytes();
    let slash: Vec<u8> = vec![47u8];
    proof {
        assert(slash@ =~= seq![47u8]);
        crate::erb::lemma_first_occ_some(b@, seq![47u8], 0);
    }
    match crate::text::find(b, 0, slash.as_slice()) {
        Some(i) => {
            proof {
                assert(b@.subrange(i as int, i + 1)[0] == b@[i as int]);
                crate::text::lemma_ascii_splits(id@, i as int);
            }
            Some(crate::text::slice_str(id, 0, i))
        },
        None => None,
    }
}

/// What a caller may ask the built-in pack for: `all`, each family, and each
/// full id.
pub fn families(pack: &Vec<(String, String)>) -> (r: Vec<String>)
    ensures
        string_views(r@) == spec_families(pack_ids(pack@)),
{
    let ghost ids = pack_ids(pack@);
    let mut out: Vec<String> = Vec::new();
    out.push(owned("all"));
    let mut k: usize = 0;
    proof {
        assert(string_views(out@) =~= families_upto(ids, 0));
    }
    while k < pack.len()
        invariant
            k <= pack@.len(),
            ids == pack_ids(pack@),
            string_views(out@) == families_upto(ids, k as int),
        decreases pack@.len() - k,
    {
        assert(ids[k as int] == pack@[k as int].0@);
        match family(pack[k].0.as_str()) {
            Some(f) => {
                if !holds(&out, f) {
                    let ghost was = string_views(out@);
                    out.push(owned(f));
                    proof {
                        assert(string_views(out@) =~= was.push(f@));
                    }
                }
            },
            None => {},
        }
        k += 1;
    }
    let mut j: usize = 0;
    let ghost fams = string_views(out@);
    while j < pack.len()
        invariant
            j <= pack@.len(),
            ids == pack_ids(pack@),
            string_views(out@) == fams + ids.take(j as int),
        decreases pack@.len() - j,
    {
        let ghost was = string_views(out@);
        out.push(owned(pack[j].0.as_str()));
        proof {
            assert(string_views(out@) =~= was.push(ids[j as int]));
            assert(ids.take(j + 1) =~= ids.take(j as int).push(ids[j as int]));
        }
        j += 1;
    }
    proof {
        assert(ids.take(pack@.len() as int) =~= ids);
    }
    out
}

/// Whether a built-in id is selected by a name: `all` is everything, a
/// family is every id under it, and a full id is itself.
pub open spec fn selects(name: Seq<char>, id: Seq<char>) -> bool {
    ||| name == "all"@
    ||| id == name
    ||| (id.len() > name.len() && id.subrange(0, name.len() as int) == name && id[name.len() as int] == '/')
}

/// The pack entries a name selects, in pack order.
pub open spec fn selected(pack: Seq<(Seq<char>, Seq<char>)>, name: Seq<char>) -> Seq<(Seq<char>, Seq<char>)>
    decreases pack.len(),
{
    if pack.len() == 0 {
        Seq::empty()
    } else if selects(name, pack.last().0) {
        selected(pack.drop_last(), name).push(pack.last())
    } else {
        selected(pack.drop_last(), name)
    }
}

/// Asking the built-in pack for `name` selects exactly the entries whose id
/// `name` covers -- every id for `all`, the id itself, or each id under the
/// `name/` family -- in pack order; no other entry.
pub proof fn law_builtin_selection_is_a_filter(pack: Seq<(Seq<char>, Seq<char>)>, name: Seq<char>)
    ensures
        selected(pack, name) == pack.filter(|e: (Seq<char>, Seq<char>)| selects(name, e.0)),
        forall|i: int| 0 <= i < pack.len() && selects(name, pack[i].0) ==> #[trigger] selected(pack, name).contains(
            pack[i],
        ),
        forall|e: (Seq<char>, Seq<char>)| #[trigger] selected(pack, name).contains(e) ==> selects(name, e.0),
    decreases pack.len(),
{
    broadcast use vstd::seq_lib::group_filter_ensures;

    reveal(Seq::filter);
    if pack.len() > 0 {
        law_builtin_selection_is_a_filter(pack.drop_last(), name);
    }
    let pred = |e: (Seq<char>, Seq<char>)| selects(name, e.0);
    assert forall|i: int| 0 <= i < pack.len() && selects(name, pack[i].0) implies #[trigger] selected(
        pack,
        name,
    ).contains(pack[i]) by {
        pack.lemma_filter_contains(pred, i);
    }
    assert forall|e: (Seq<char>, Seq<char>)| #[trigger] selected(pack, name).contains(e) implies selects(name, e.0) by {
        let k = choose|k: int| 0 <= k < pack.filter(pred).len() && pack.filter(pred)[k] == e;
        pack.lemma_filter_pred(pred, k);
    }
}

pub open spec fn pack_view(pack: Seq<(String, String)>) -> Seq<(Seq<char>, Seq<char>)> {
    pack.map_values(|e: (String, String)| (e.0@, e.1@))
}

fn is_selected(name: &str, id: &str) -> (r: bool)
    ensures
        r == selects(name@, id@),
{
    if str_eq(name, "all") || str_eq(id, name) {
        return true;
    }
    let n = name.unicode_len();
    let m = id.unicode_len();
    if m <= n {
        return false;
    }
    let head = id.substring_char(0, n);
    str_eq(head, name) && id.get_char(n) == '/'
}

/// The entries of the built-in pack a name selects, as `(id, yaml)`. A name
/// that selects nothing is an error naming what could be asked for instead.
pub fn builtin(pack: &Vec<(String, String)>, name: &str) -> (r: Result<Vec<(String, String)>, RuleError>)
    ensures
        match r {
            Ok(v) => pack_view(v@) == selected(pack_view(pack@), name@) && v@.len() > 0,
            Err(e) => selected(pack_view(pack@), name@).len() == 0 && (e matches RuleError::NoSuchRule {
                name: n,
                known,
            } && n@ == name@ && string_views(known@) == spec_families(pack_ids(pack@))),
        },
{
    let ghost pv = pack_view(pack@);
    let mut out: Vec<(String, String)> = Vec::new();
    let mut k: usize = 0;
    while k < pack.len()
        invariant
            k <= pack@.len(),
            pv == pack_view(pack@),
            pack_view(out@) == selected(pv.take(k as int), name@),
        decreases pack@.len() - k,
    {
        proof {
            assert(pv.take(k + 1).drop_last() =~= pv.take(k as int));
            assert(pv.take(k + 1).last() == pv[k as int]);
        }
        if is_selected(name, pack[k].0.as_str()) {
            let ghost was = pack_view(out@);
            out.push((owned(pack[k].0.as_str()), owned(pack[k].1.as_str())));
            proof {
                assert(pack_view(out@) =~= was.push(pv[k as int]));
            }
        }
        k += 1;
    }
    proof {
        assert(pv.take(pack@.len() as int) =~= pv);
    }
    if out.len() == 0 {
        return Err(RuleError::NoSuchRule { name: owned(name), known: families(pack) });
    }
    Ok(out)
}

/// How std orders a path component's kind: the root, then `.`, then `..`,
/// then a name.
pub open spec fn component_rank(c: Seq<char>) -> int {
    if c == "/"@ {
        1
    } else if c == "."@ {
        2
    } else if c == ".."@ {
        3
    } else {
        4
    }
}

/// One component before another: by kind, and two names by their bytes.
pub open spec fn component_less(a: Seq<char>, b: Seq<char>) -> bool {
    component_rank(a) < component_rank(b) || (component_rank(a) == 4 && component_rank(b) == 4
        && bytes_less(vstd::utf8::encode_utf8(a), vstd::utf8::encode_utf8(b)))
}

/// Byte strings in dictionary order: the first byte where they differ
/// decides, and a proper prefix comes first.
proof fn lemma_bytes_less_is_dictionary_order(x: Seq<u8>, y: Seq<u8>)
    ensures
        bytes_less(x, y) <==> ((exists|i: int|
            0 <= i < x.len() && i < y.len() && x.take(i) =~= y.take(i) && #[trigger] x[i] < y[i]) || (x.len() < y.len()
            && y.take(x.len() as int) =~= x)),
    decreases x.len(),
{
    if y.len() == 0 {
    } else if x.len() == 0 {
        assert(y.take(0) =~= x);
    } else if x[0] != y[0] {
        if x[0] < y[0] {
            assert(x.take(0) =~= y.take(0));
            assert(x[0] < y[0]);
        } else {
            assert forall|i: int| 0 <= i < x.len() && i < y.len() && x.take(i) =~= y.take(i) implies !(#[trigger] x[i]
                < y[i]) by {
                if i > 0 {
                    assert(x.take(i)[0] == y.take(i)[0]);
                }
            }
            if x.len() < y.len() && y.take(x.len() as int) =~= x {
                assert(y.take(x.len() as int)[0] == x[0]);
            }
        }
    } else {
        let x1 = x.drop_first();
        let y1 = y.drop_first();
        lemma_bytes_less_is_dictionary_order(x1, y1);
        if exists|i: int| 0 <= i < x1.len() && i < y1.len() && x1.take(i) =~= y1.take(i) && #[trigger] x1[i] < y1[i] {
            let i = choose|i: int| 0 <= i < x1.len() && i < y1.len() && x1.take(i) =~= y1.take(i) && #[trigger] x1[i] < y1[i];
            assert(x.take(i + 1) =~= seq![x[0]] + x1.take(i));
            assert(y.take(i + 1) =~= seq![y[0]] + y1.take(i));
            assert(x[i + 1] == x1[i]);
            assert(y[i + 1] == y1[i]);
        }
        if x1.len() < y1.len() && y1.take(x1.len() as int) =~= x1 {
            assert(y.take(x.len() as int) =~= seq![y[0]] + y1.take(x1.len() as int));
            assert(x =~= seq![x[0]] + x1);
        }
        if exists|i: int| 0 <= i < x.len() && i < y.len() && x.take(i) =~= y.take(i) && #[trigger] x[i] < y[i] {
            let i = choose|i: int| 0 <= i < x.len() && i < y.len() && x.take(i) =~= y.take(i) && #[trigger] x[i] < y[i];
            assert(i > 0);
            assert(x1.take(i - 1) =~= x.take(i).drop_first());
            assert(y1.take(i - 1) =~= y.take(i).drop_first());
            assert(x1[i - 1] == x[i]);
            assert(y1[i - 1] == y[i]);
        }
        if x.len() < y.len() && y.take(x.len() as int) =~= x {
            assert(y1.take(x1.len() as int) =~= y.take(x.len() as int).drop_first());
        }
    }
}

/// Path components order as std orders them: the root first, then `.`, then
/// `..`, then names; and two names byte by byte, the first differing byte
/// deciding and a proper prefix first -- a shorter name is not first for
/// being shorter.
pub proof fn law_names_order_by_their_bytes(a: Seq<char>, b: Seq<char>)
    ensures
        component_less("/"@, "."@) && component_less("."@, ".."@),
        !component_less("."@, "/"@) && !component_less(".."@, "."@),
        a != "/"@ && a != "."@ && a != ".."@ ==> {
            &&& component_less("/"@, a) && component_less("."@, a) && component_less(".."@, a)
            &&& !component_less(a, "/"@) && !component_less(a, "."@) && !component_less(a, ".."@)
        },
        component_rank(a) < component_rank(b) ==> component_less(a, b),
        component_rank(b) < component_rank(a) ==> !component_less(a, b),
        a != "/"@ && a != "."@ && a != ".."@ && b != "/"@ && b != "."@ && b != ".."@ ==> ({
            let x = vstd::utf8::encode_utf8(a);
            let y = vstd::utf8::encode_utf8(b);
            component_less(a, b) <==> ((exists|i: int|
                0 <= i < x.len() && i < y.len() && x.take(i) =~= y.take(i) && #[trigger] x[i] < y[i]) || (x.len()
                < y.len() && y.take(x.len() as int) =~= x))
        }),
{
    reveal_strlit("/");
    reveal_strlit(".");
    reveal_strlit("..");
    assert("/"@ != "."@ && "/"@ != ".."@ && "."@ != ".."@) by {
        assert("/"@[0] != "."@[0]);
        assert("."@.len() != ".."@.len());
    }
    lemma_bytes_less_is_dictionary_order(vstd::utf8::encode_utf8(a), vstd::utf8::encode_utf8(b));
}

/// Components compared one by one, a proper prefix first.
pub open spec fn components_less(a: Seq<Seq<char>>, b: Seq<Seq<char>>) -> bool
    decreases a.len(),
{
    if b.len() == 0 {
        false
    } else if a.len() == 0 {
        true
    } else if component_less(a[0], b[0]) {
        true
    } else if component_less(b[0], a[0]) {
        false
    } else {
        components_less(a.drop_first(), b.drop_first())
    }
}

/// One path before another, as std orders paths: by their components.
pub open spec fn path_less(a: Seq<char>, b: Seq<char>) -> bool {
    components_less(path_components(a), path_components(b))
}

/// The first element that sorts after `x`, or the end.
pub open spec fn first_greater(s: Seq<Seq<char>>, x: Seq<char>, k: int) -> int
    decreases s.len() - k,
{
    if k < 0 || k >= s.len() {
        s.len() as int
    } else if path_less(x, s[k]) {
        k
    } else {
        first_greater(s, x, k + 1)
    }
}

/// A stable sort by path: each element inserted after every one that does
/// not sort after it.
pub open spec fn sort_paths(s: Seq<Seq<char>>) -> Seq<Seq<char>>
    decreases s.len(),
{
    if s.len() == 0 {
        s
    } else {
        let sorted = sort_paths(s.drop_last());
        let p = first_greater(sorted, s.last(), 0);
        sorted.take(p).push(s.last()) + sorted.skip(p)
    }
}

proof fn lemma_sort_paths_permutes(s: Seq<Seq<char>>)
    ensures
        sort_paths(s).len() == s.len(),
        sort_paths(s).to_multiset() == s.to_multiset(),
    decreases s.len(),
{
    broadcast use vstd::seq_lib::group_to_multiset_ensures;
    broadcast use vstd::multiset::group_multiset_axioms;

    if s.len() > 0 {
        let rest = s.drop_last();
        lemma_sort_paths_permutes(rest);
        let sorted = sort_paths(rest);
        let x = s.last();
        let p = first_greater(sorted, x, 0);
        lemma_first_greater(sorted, x, 0);
        vstd::seq_lib::lemma_multiset_commutative(sorted.take(p).push(x), sorted.skip(p));
        vstd::seq_lib::lemma_multiset_commutative(sorted.take(p), sorted.skip(p));
        assert(sorted.take(p) + sorted.skip(p) =~= sorted);
        assert(rest.push(x) =~= s);
        assert(sort_paths(s).to_multiset() =~= s.to_multiset());
    }
}

/// A rule pack is refused exactly when its directory holds no rule file;
/// otherwise it lists every file once, in path order, each under the id its
/// path below the directory gives it.
pub proof fn law_a_pack_lists_every_file_once(dir: Seq<char>, files: Seq<Seq<char>>)
    ensures
        spec_load_pack(dir, files) is Err <==> files.len() == 0,
        spec_load_pack(dir, files) matches Ok(v) ==> {
            &&& v.len() == files.len()
            &&& v.map_values(|e: (Seq<char>, Seq<char>)| e.0) == sort_paths(files)
            &&& v.map_values(|e: (Seq<char>, Seq<char>)| e.0).to_multiset() == files.to_multiset()
            &&& forall|i: int| 0 <= i < v.len() ==> (#[trigger] v[i]).1 == pack_id(dir, v[i].0)
        },
{
    lemma_sort_paths_permutes(files);
    if files.len() > 0 {
        let v = sort_paths(files).map_values(|f: Seq<char>| (f, pack_id(dir, f)));
        assert(v.map_values(|e: (Seq<char>, Seq<char>)| e.0) =~= sort_paths(files));
    }
}

proof fn lemma_first_greater(s: Seq<Seq<char>>, x: Seq<char>, k: int)
    requires
        0 <= k <= s.len(),
    ensures
        k <= first_greater(s, x, k) <= s.len(),
        forall|j: int| k <= j < first_greater(s, x, k) ==> !path_less(x, #[trigger] s[j]),
        first_greater(s, x, k) < s.len() ==> path_less(x, s[first_greater(s, x, k)]),
    decreases s.len() - k,
{
    if k < s.len() && !path_less(x, s[k]) {
        lemma_first_greater(s, x, k + 1);
    }
}

proof fn lemma_component_less_asymmetric(x: Seq<char>, y: Seq<char>)
    ensures
        component_less(x, y) ==> !component_less(y, x),
{
    crate::text::lemma_bytes_less_total(vstd::utf8::encode_utf8(x), vstd::utf8::encode_utf8(y));
}

proof fn lemma_components_less_asymmetric(a: Seq<Seq<char>>, b: Seq<Seq<char>>)
    ensures
        components_less(a, b) ==> !components_less(b, a),
    decreases a.len(),
{
    if a.len() > 0 && b.len() > 0 {
        lemma_component_less_asymmetric(a[0], b[0]);
        if !component_less(a[0], b[0]) && !component_less(b[0], a[0]) {
            lemma_components_less_asymmetric(a.drop_first(), b.drop_first());
        }
    }
}

/// No path comes after the one that follows it.
pub open spec fn in_path_order(s: Seq<Seq<char>>) -> bool {
    forall|i: int| 0 <= i < s.len() - 1 ==> !path_less(#[trigger] s[i + 1], s[i])
}

proof fn lemma_sort_paths_ordered(s: Seq<Seq<char>>)
    ensures
        in_path_order(sort_paths(s)),
    decreases s.len(),
{
    if s.len() > 0 {
        let rest = s.drop_last();
        lemma_sort_paths_ordered(rest);
        let sorted = sort_paths(rest);
        let x = s.last();
        let p = first_greater(sorted, x, 0);
        lemma_first_greater(sorted, x, 0);
        let r = sorted.take(p).push(x) + sorted.skip(p);
        assert(r == sort_paths(s));
        assert forall|i: int| 0 <= i < r.len() - 1 implies !path_less(#[trigger] r[i + 1], r[i]) by {
            if i + 1 < p {
                assert(r[i] == sorted[i] && r[i + 1] == sorted[i + 1]);
                assert(!path_less(sorted[i + 1], sorted[i]));
            } else if i + 1 == p {
                assert(r[i] == sorted[p - 1] && r[i + 1] == x);
                assert(!path_less(x, sorted[p - 1]));
            } else if i == p {
                assert(r[i] == x && r[i + 1] == sorted[p]);
                lemma_components_less_asymmetric(path_components(x), path_components(sorted[p]));
            } else {
                assert(r[i] == sorted[i - 1] && r[i + 1] == sorted[i]);
                let j = i - 1;
                assert(0 <= j < sorted.len() - 1);
                assert(!path_less(sorted[j + 1], sorted[j]));
            }
        }
    }
}

/// A pack lists its files in path order: no file comes after the one listed
/// next, comparing their paths component by component as std does.
pub proof fn law_a_pack_lists_its_files_in_path_order(dir: Seq<char>, files: Seq<Seq<char>>)
    ensures
        spec_load_pack(dir, files) matches Ok(v) ==> forall|i: int|
            0 <= i < v.len() - 1 ==> !path_less(#[trigger] v[i + 1].0, v[i].0),
{
    lemma_sort_paths_ordered(files);
    lemma_sort_paths_permutes(files);
    let sorted = sort_paths(files);
    if files.len() > 0 {
        let v = sorted.map_values(|f: Seq<char>| (f, pack_id(dir, f)));
        assert forall|i: int| 0 <= i < v.len() - 1 implies !path_less(#[trigger] v[i + 1].0, v[i].0) by {
            assert(v[i + 1].0 == sorted[i + 1] && v[i].0 == sorted[i]);
        }
    }
}

fn component_before(a: &str, b: &str) -> (r: bool)
    ensures
        r == component_less(a@, b@),
{
    let ra: u8 = if str_eq(a, "/") {
        1
    } else if str_eq(a, ".") {
        2
    } else if str_eq(a, "..") {
        3
    } else {
        4
    };
    let rb: u8 = if str_eq(b, "/") {
        1
    } else if str_eq(b, ".") {
        2
    } else if str_eq(b, "..") {
        3
    } else {
        4
    };
    ra < rb || (ra == 4 && rb == 4 && crate::text::less_bytes(a.as_bytes(), b.as_bytes()))
}

fn components_before(a: &Vec<String>, b: &Vec<String>) -> (r: bool)
    ensures
        r == components_less(string_views(a@), string_views(b@)),
{
    let ghost av = string_views(a@);
    let ghost bv = string_views(b@);
    let mut k: usize = 0;
    proof {
        assert(av.skip(0) =~= av);
        assert(bv.skip(0) =~= bv);
    }
    while k < a.len() && k < b.len()
        invariant
            k <= a@.len(),
            k <= b@.len(),
            av == string_views(a@),
            bv == string_views(b@),
            components_less(av, bv) == components_less(av.skip(k as int), bv.skip(k as int)),
        decreases a@.len() - k,
    {
        let x = a[k].as_str();
        let y = b[k].as_str();
        proof {
            assert(av.skip(k as int)[0] == x@);
            assert(bv.skip(k as int)[0] == y@);
            assert(av.skip(k as int).drop_first() =~= av.skip(k + 1));
            assert(bv.skip(k as int).drop_first() =~= bv.skip(k + 1));
        }
        if component_before(x, y) {
            return true;
        }
        if component_before(y, x) {
            return false;
        }
        k += 1;
    }
    if k == b.len() {
        false
    } else {
        true
    }
}

fn path_before(a: &str, b: &str) -> (r: bool)
    ensures
        r == path_less(a@, b@),
{
    let ca = crate::source::components(a);
    let cb = crate::source::components(b);
    components_before(&ca, &cb)
}

/// Sort paths as std sorts them, stably.
pub fn sorted_paths(files: &Vec<String>) -> (r: Vec<String>)
    ensures
        string_views(r@) == sort_paths(string_views(files@)),
{
    let ghost fv = string_views(files@);
    let mut out: Vec<String> = Vec::new();
    let mut k: usize = 0;
    while k < files.len()
        invariant
            k <= files@.len(),
            fv == string_views(files@),
            string_views(out@) == sort_paths(fv.take(k as int)),
        decreases files@.len() - k,
    {
        let x = files[k].as_str();
        let ghost sv = string_views(out@);
        proof {
            assert(fv.take(k + 1).drop_last() =~= fv.take(k as int));
            assert(fv.take(k + 1).last() == x@);
            assert(sv.skip(0) =~= sv);
        }
        let mut p: usize = 0;
        while p < out.len() && !path_before(x, out[p].as_str())
            invariant
                p <= out@.len(),
                sv == string_views(out@),
                first_greater(sv, x@, 0) == first_greater(sv, x@, p as int),
            decreases out@.len() - p,
        {
            assert(sv[p as int] == out@[p as int]@);
            p += 1;
        }
        proof {
            if p < out@.len() {
                assert(sv[p as int] == out@[p as int]@);
            }
            lemma_first_greater(sv, x@, 0);
        }
        out.insert(p, owned(x));
        proof {
            assert(string_views(out@) =~= sv.take(p as int).push(x@) + sv.skip(p as int));
        }
        k += 1;
    }
    proof {
        assert(fv.take(files@.len() as int) =~= fv);
    }
    out
}

/// What `Path::with_extension("")` leaves of a path: the path with its
/// file name's extension removed.
pub uninterp spec fn path_sans_extension(p: Seq<char>) -> Seq<char>;

/// `Path::with_extension("")`, as text. The result depends on the path alone.
#[verifier::external_body]
fn sans_extension(p: &str) -> (r: String)
    ensures
        r@ == path_sans_extension(p@),
{
    std::path::Path::new(p).with_extension("").to_string_lossy().into_owned()
}

/// The id a rule file in a pack reports under: its path within the pack,
/// without its extension, with `/` between directories -- so
/// `performance/detect.yml` reports as `performance/detect`.
pub open spec fn pack_id(dir: Seq<char>, file: Seq<char>) -> Seq<char> {
    crate::source::forward_slashes(path_sans_extension(crate::source::relative_to(file, dir)))
}

/// The rule files of a pack in the order they apply, each with its id; no
/// files at all is an error rather than a pack that silently does nothing.
pub open spec fn spec_load_pack(dir: Seq<char>, files: Seq<Seq<char>>) -> Result<Seq<(Seq<char>, Seq<char>)>, Seq<char>> {
    if files.len() == 0 {
        Err(dir)
    } else {
        Ok(sort_paths(files).map_values(|f: Seq<char>| (f, pack_id(dir, f))))
    }
}

fn slashes(s: &str) -> (r: String)
    ensures
        r@ == crate::source::forward_slashes(s@),
{
    let n = s.unicode_len();
    let mut out: Vec<char> = Vec::new();
    let mut i: usize = 0;
    while i < n
        invariant
            i <= n == s@.len(),
            out@ == crate::source::forward_slashes(s@).take(i as int),
        decreases n - i,
    {
        let c = s.get_char(i);
        out.push(if c == '\\' { '/' } else { c });
        proof {
            assert(crate::source::forward_slashes(s@).take(i + 1) =~= crate::source::forward_slashes(s@).take(i as int).push(if c == '\\' { '/' } else { c }));
        }
        i += 1;
    }
    proof {
        assert(crate::source::forward_slashes(s@).take(n as int) =~= crate::source::forward_slashes(s@));
    }
    chars_string(&out)
}

/// `String::from_iter` over characters: the same characters, as a string.
#[verifier::external_body]
fn chars_string(chars: &Vec<char>) -> (s: String)
    ensures
        s@ == chars@,
{
    chars.iter().collect()
}

/// The rule files of a pack, each with the id it reports under, in the order
/// they apply. `files` are every `.yml` and `.yaml` found under `dir`.
pub fn load_pack(dir: &str, files: &Vec<String>) -> (r: Result<Vec<(String, String)>, RuleError>)
    ensures
        match spec_load_pack(dir@, string_views(files@)) {
            Ok(v) => r matches Ok(out) && pack_view(out@) == v,
            Err(path) => r matches Err(RuleError::EmptyPack { path: p }) && p@ == path,
        },
{
    if files.len() == 0 {
        return Err(RuleError::EmptyPack { path: owned(dir) });
    }
    let sorted = sorted_paths(files);
    let ghost sv = string_views(sorted@);
    let mut out: Vec<(String, String)> = Vec::new();
    let mut k: usize = 0;
    while k < sorted.len()
        invariant
            k <= sorted@.len(),
            sv == string_views(sorted@),
            pack_view(out@) == sv.take(k as int).map_values(|f: Seq<char>| (f, pack_id(dir@, f))),
        decreases sorted@.len() - k,
    {
        let file = sorted[k].as_str();
        let relative = match crate::source::strip_prefix(file, dir) {
            Some(r) => r,
            None => owned(file),
        };
        let bare = sans_extension(relative.as_str());
        let id = slashes(bare.as_str());
        let ghost was = pack_view(out@);
        out.push((owned(file), id));
        proof {
            assert(sv[k as int] == file@);
            assert(relative@ == crate::source::relative_to(file@, dir@));
            assert(pack_view(out@) =~= was.push((file@, pack_id(dir@, file@))));
            assert(sv.take(k + 1).map_values(|f: Seq<char>| (f, pack_id(dir@, f))) =~= sv.take(k as int).map_values(
                |f: Seq<char>| (f, pack_id(dir@, f)),
            ).push((file@, pack_id(dir@, file@))));
        }
        k += 1;
    }
    proof {
        assert(sv.take(sorted@.len() as int) =~= sv);
    }
    Ok(out)
}

} // verus!
