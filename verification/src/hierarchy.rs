//! The class hierarchy: superclass links, mixins, refinements and constant
//! aliases, with every class named by its qualified name.
//!
//! Renaming `Account#display_name` has to reach `premium.display_name` where
//! `Premium < Account`, and has to rename `Premium`'s override too. A written
//! constant is resolved the way Ruby resolves it -- innermost enclosing module
//! outwards, then the top level -- before anything is compared, so that
//! `Billing::Account` and a top-level `Account` stay two classes.
//!
//! Every map of the hierarchy is an association list read by its last entry for
//! a key, which is what a map gives back after a run of inserts.

use vstd::prelude::*;
use crate::matcher::{enclosing_class, spec_enclosing_class};
use crate::text::{cat3, memmem_find, occurs_at, opt_view, owned, str_eq, string_views};
use crate::tree::{qualified, scope_name_of, spec_qualified, spec_scope_name, Expr, Shape, Tree};

verus! {

/// `s[i..i + 2]` is `::`.
pub open spec fn sep_at(s: Seq<char>, i: int) -> bool {
    0 <= i && i + 1 < s.len() && s[i] == ':' && s[i + 1] == ':'
}

/// The rightmost `::` starting before `n`.
pub open spec fn sep_before(s: Seq<char>, n: int) -> Option<int>
    decreases n,
{
    if n <= 0 {
        None
    } else if sep_at(s, n - 1) {
        Some(n - 1)
    } else {
        sep_before(s, n - 1)
    }
}

/// Where the last `::` of a name starts, if it has one.
pub open spec fn last_sep(s: Seq<char>) -> Option<int> {
    sep_before(s, s.len() as int)
}

/// The last segment of a qualified name: what follows its last `::`, or the
/// whole name.
pub open spec fn spec_last_segment(s: Seq<char>) -> Seq<char> {
    match last_sep(s) {
        Some(i) => s.subrange(i + 2, s.len() as int),
        None => s,
    }
}

/// A name written inside a namespace.
pub open spec fn nested(scope: Seq<char>, written: Seq<char>) -> Seq<char> {
    scope + "::"@ + written
}

proof fn lemma_sep_before_bounds(s: Seq<char>, n: int)
    ensures
        match sep_before(s, n) {
            Some(i) => 0 <= i < n && sep_at(s, i),
            None => true,
        },
    decreases n,
{
    if n > 0 && !sep_at(s, n - 1) {
        lemma_sep_before_bounds(s, n - 1);
    }
}

/// Where the last `::` of `s` starts, counted in characters.
fn find_last_sep(s: &str) -> (r: Option<usize>)
    ensures
        match r {
            Some(i) => last_sep(s@) == Some(i as int) && i + 2 <= s@.len(),
            None => last_sep(s@) is None,
        },
{
    let n = s.unicode_len();
    let mut i: usize = n;
    while i > 0
        invariant
            i <= n,
            n == s@.len(),
            sep_before(s@, n as int) == sep_before(s@, i as int),
        decreases i,
    {
        let j = i - 1;
        if j + 1 < n && s.get_char(j) == ':' && s.get_char(j + 1) == ':' {
            return Some(j);
        }
        i = j;
    }
    None
}

/// The last segment of a qualified name -- what an unqualified name has to
/// agree with before it can mean this class.
pub fn last_segment(name: &str) -> (r: &str)
    ensures
        r@ == spec_last_segment(name@),
{
    match find_last_sep(name) {
        Some(i) => {
            let n = name.unicode_len();
            name.substring_char(i + 2, n)
        },
        None => name,
    }
}

/// How many of the known constants end in `w`.
pub open spec fn seg_count(cs: Seq<Seq<char>>, w: Seq<char>) -> nat
    decreases cs.len(),
{
    if cs.len() == 0 {
        0
    } else {
        seg_count(cs.drop_last(), w) + if spec_last_segment(cs.last()) == w {
            1nat
        } else {
            0nat
        }
    }
}

/// The last of the known constants that ends in `w`.
pub open spec fn seg_last(cs: Seq<Seq<char>>, w: Seq<char>) -> Option<Seq<char>>
    decreases cs.len(),
{
    if cs.len() == 0 {
        None
    } else if spec_last_segment(cs.last()) == w {
        Some(cs.last())
    } else {
        seg_last(cs.drop_last(), w)
    }
}

/// Ruby's lexical lookup: `written` inside `scope`, then inside each module
/// enclosing it, innermost first. The top level is not consulted here.
pub open spec fn lexical(cs: Seq<Seq<char>>, written: Seq<char>, scope: Seq<char>) -> Option<Seq<char>>
    decreases scope.len(),
{
    if cs.contains(nested(scope, written)) {
        Some(nested(scope, written))
    } else {
        match last_sep(scope) {
            Some(i) => if 0 <= i < scope.len() {
                lexical(cs, written, scope.subrange(0, i))
            } else {
                None
            },
            None => None,
        }
    }
}

/// The class a written constant names, given the constants the run has seen.
///
/// Lexical lookup first. Failing that, a qualified name stays as written: its
/// namespace is the writer saying which namesake it means. An unqualified name
/// that is itself known stays too; one that matches nothing seen widens to the
/// single known class ending with it, and stays as written when there are
/// several, since choosing between namesakes is the mistake this avoids.
pub open spec fn spec_resolve(cs: Seq<Seq<char>>, written: Seq<char>, enclosing: Option<Seq<char>>) -> Seq<char> {
    match (match enclosing {
        Some(e) => lexical(cs, written, e),
        None => None,
    }) {
        Some(n) => n,
        None => if last_sep(written) is Some {
            written
        } else if cs.contains(written) {
            written
        } else if seg_count(cs, written) == 1 {
            seg_last(cs, written)->0
        } else {
            written
        },
    }
}

/// Whether `w` is among the constants.
fn known(cs: &Vec<String>, w: &str) -> (r: bool)
    ensures
        r == string_views(cs@).contains(w@),
{
    let ghost v = string_views(cs@);
    let mut k: usize = 0;
    while k < cs.len()
        invariant
            k <= cs@.len(),
            v == string_views(cs@),
            forall|j: int| 0 <= j < k ==> v[j] != w@,
        decreases cs@.len() - k,
    {
        if str_eq(cs[k].as_str(), w) {
            assert(v[k as int] == w@);
            return true;
        }
        k += 1;
    }
    false
}

/// The single constant ending in `w`, when exactly one does.
fn only_ending_in(cs: &Vec<String>, w: &str) -> (r: Option<String>)
    ensures
        match r {
            Some(c) => seg_count(string_views(cs@), w@) == 1 && seg_last(string_views(cs@), w@) == Some(c@),
            None => seg_count(string_views(cs@), w@) != 1,
        },
{
    let ghost v = string_views(cs@);
    let mut count: usize = 0;
    let mut found: Option<usize> = None;
    let mut k: usize = 0;
    while k < cs.len()
        invariant
            k <= cs@.len(),
            v == string_views(cs@),
            count == seg_count(v.take(k as int), w@),
            count <= k,
            (found is None) == (count == 0),
            match found {
                Some(j) => j < k && seg_last(v.take(k as int), w@) == Some(v[j as int]),
                None => seg_last(v.take(k as int), w@) is None,
            },
        decreases cs@.len() - k,
    {
        proof {
            assert(v.take(k + 1).drop_last() =~= v.take(k as int));
            assert(v.take(k + 1).last() == v[k as int]);
        }
        if str_eq(last_segment(cs[k].as_str()), w) {
            count += 1;
            found = Some(k);
        }
        k += 1;
    }
    proof {
        assert(v.take(cs@.len() as int) =~= v);
    }
    if count == 1 {
        match found {
            Some(j) => Some(owned(cs[j].as_str())),
            None => None,
        }
    } else {
        None
    }
}

/// The class `written` names when read inside `enclosing`.
fn resolve_in(cs: &Vec<String>, written: &str, enclosing: Option<&str>) -> (r: String)
    ensures
        r@ == spec_resolve(
            string_views(cs@),
            written@,
            match enclosing {
                Some(e) => Some(e@),
                None => None,
            },
        ),
{
    let ghost v = string_views(cs@);
    match enclosing {
        Some(e) => {
            let mut scope: &str = e;
            loop
                invariant
                    v == string_views(cs@),
                    enclosing == Some(e),
                    lexical(v, written@, e@) == lexical(v, written@, scope@),
                ensures
                    lexical(v, written@, e@) is None,
                decreases scope@.len(),
            {
                let candidate = cat3(scope, "::", written);
                if known(cs, candidate.as_str()) {
                    assert(candidate@ == nested(scope@, written@));
                    assert(lexical(v, written@, scope@) == Some(candidate@));
                    return candidate;
                }
                match find_last_sep(scope) {
                    Some(i) => {
                        scope = scope.substring_char(0, i);
                    },
                    None => {
                        break ;
                    },
                }
            }
        },
        None => {},
    }
    if find_last_sep(written).is_some() {
        return owned(written);
    }
    if known(cs, written) {
        return owned(written);
    }
    match only_ending_in(cs, written) {
        Some(c) => c,
        None => owned(written),
    }
}

/// A pair of names as plain values.
pub open spec fn pair_views(v: Seq<(String, String)>) -> Seq<(Seq<char>, Seq<char>)> {
    v.map_values(|p: (String, String)| (p.0@, p.1@))
}

/// What a map built by inserting these pairs in order holds for `k`: the
/// value of the last pair with that key.
pub open spec fn lookup(s: Seq<(Seq<char>, Seq<char>)>, k: Seq<char>) -> Option<Seq<char>>
    decreases s.len(),
{
    if s.len() == 0 {
        None
    } else if s.last().0 == k {
        Some(s.last().1)
    } else {
        lookup(s.drop_last(), k)
    }
}

/// Where the last pair with key `k` sits.
pub open spec fn last_index(s: Seq<(Seq<char>, Seq<char>)>, k: Seq<char>) -> Option<int>
    decreases s.len(),
{
    if s.len() == 0 {
        None
    } else if s.last().0 == k {
        Some(s.len() - 1)
    } else {
        last_index(s.drop_last(), k)
    }
}

proof fn lemma_last_index_bounds(s: Seq<(Seq<char>, Seq<char>)>, k: Seq<char>)
    ensures
        match last_index(s, k) {
            Some(i) => 0 <= i < s.len() && s[i].0 == k,
            None => true,
        },
    decreases s.len(),
{
    if s.len() > 0 && s.last().0 != k {
        lemma_last_index_bounds(s.drop_last(), k);
    }
}

/// Insert `k -> v`: replace the last pair with key `k` in place, or add one at
/// the end.
pub open spec fn put(s: Seq<(Seq<char>, Seq<char>)>, k: Seq<char>, v: Seq<char>) -> Seq<(Seq<char>, Seq<char>)> {
    match last_index(s, k) {
        Some(i) => s.update(i, (k, v)),
        None => s.push((k, v)),
    }
}

/// Insertion then lookup, as a map behaves.
pub proof fn lemma_put_lookup(s: Seq<(Seq<char>, Seq<char>)>, k: Seq<char>, v: Seq<char>, q: Seq<char>)
    ensures
        lookup(put(s, k, v), q) == if q == k {
            Some(v)
        } else {
            lookup(s, q)
        },
    decreases s.len(),
{
    let p = put(s, k, v);
    match last_index(s, k) {
        None => {
            assert(p.drop_last() =~= s);
        },
        Some(i) => {
            if s.last().0 == k {
                assert(p.drop_last() =~= s.drop_last());
                assert(p.last() == (k, v));
            } else {
                lemma_put_lookup(s.drop_last(), k, v, q);
                lemma_last_index_bounds(s.drop_last(), k);
                assert(p.drop_last() =~= put(s.drop_last(), k, v));
                assert(p.last() == s.last());
            }
        },
    }
}

/// The index of the last pair with key `k`.
fn key_index(pairs: &Vec<(String, String)>, k: &str) -> (r: Option<usize>)
    ensures
        match r {
            Some(i) => i < pairs@.len() && pairs@[i as int].0@ == k@ && lookup(pair_views(pairs@), k@) == Some(
                pairs@[i as int].1@,
            ) && forall|j: int| i < j < pairs@.len() ==> pairs@[j].0@ != k@,
            None => lookup(pair_views(pairs@), k@) is None && forall|j: int|
                0 <= j < pairs@.len() ==> pairs@[j].0@ != k@,
        },
{
    let ghost v = pair_views(pairs@);
    let mut i: usize = pairs.len();
    assert(v.take(i as int) =~= v);
    while i > 0
        invariant
            i <= pairs@.len(),
            v == pair_views(pairs@),
            lookup(v, k@) == lookup(v.take(i as int), k@),
            forall|j: int| i <= j < pairs@.len() ==> pairs@[j].0@ != k@,
        decreases i,
    {
        proof {
            assert(v.take(i as int).drop_last() =~= v.take(i - 1));
            assert(v.take(i as int).last() == v[i - 1]);
        }
        if str_eq(pairs[i - 1].0.as_str(), k) {
            return Some(i - 1);
        }
        i -= 1;
    }
    None
}

/// A reference to a constant as written, and the class body it was written in.
///
/// A reference cannot be resolved where it is read -- the declaration may be in
/// a file not read yet -- so it is carried whole and resolved once the run has
/// seen everything.
pub struct Ref {
    pub written: String,
    pub enclosing: Option<String>,
}

pub struct RefView {
    pub written: Seq<char>,
    pub enclosing: Option<Seq<char>>,
}

impl Ref {
    pub open spec fn view(&self) -> RefView {
        RefView { written: self.written@, enclosing: opt_view(self.enclosing) }
    }

    pub fn duplicate(&self) -> (r: Ref)
        ensures
            r.view() == self.view(),
    {
        Ref { written: owned(self.written.as_str()), enclosing: crate::text::clone_opt(&self.enclosing) }
    }
}

/// The superclass links, mixins, aliases and self-extensions of a program, with
/// every class named by its qualified name.
pub struct Hierarchy {
    /// `(class, superclass)`, by insertion.
    superclass: Vec<(String, String)>,
    /// `(host, module)` for every `include`, `prepend`, `extend` and `refine`.
    mixins: Vec<(String, String)>,
    /// The subset of `mixins` that lands on the host's instance table:
    /// `include` and `prepend`, not `extend`.
    included: Vec<(String, String)>,
    /// `Alias = Account`: a second name for one class, one pair per alias.
    aliases: Vec<(String, String)>,
    /// Modules whose instance methods are also singleton methods, through
    /// `extend self` or `module_function`.
    self_extended: Vec<String>,
    /// `(class, module)` for every module that refines a class.
    refines: Vec<(String, String)>,
    /// Every qualified constant the run saw name a class, once each.
    constants: Vec<String>,
}

pub struct HierarchyView {
    pub superclass: Seq<(Seq<char>, Seq<char>)>,
    pub mixins: Seq<(Seq<char>, Seq<char>)>,
    pub included: Seq<(Seq<char>, Seq<char>)>,
    pub aliases: Seq<(Seq<char>, Seq<char>)>,
    pub self_extended: Seq<Seq<char>>,
    pub refines: Seq<(Seq<char>, Seq<char>)>,
    pub constants: Seq<Seq<char>>,
}

/// Follow constant aliases from `c` for at most `fuel` steps, stopping at a
/// name with no alias or one aliased to itself.
pub open spec fn follow(al: Seq<(Seq<char>, Seq<char>)>, c: Seq<char>, fuel: nat) -> Seq<char>
    decreases fuel,
{
    if fuel == 0 {
        c
    } else {
        match lookup(al, c) {
            Some(t) => if t != c {
                follow(al, t, (fuel - 1) as nat)
            } else {
                c
            },
            None => c,
        }
    }
}

/// The class a bare name means, followed through constant aliases. A chain of
/// aliases is followed; a cycle stops after as many steps as there are aliases,
/// plus one.
pub open spec fn spec_canonical(h: HierarchyView, name: Seq<char>) -> Seq<char> {
    follow(h.aliases, spec_resolve(h.constants, name, None), (h.aliases.len() + 1) as nat)
}

/// One step up: the canonical name of a class's superclass.
pub open spec fn step(h: HierarchyView, c: Seq<char>) -> Option<Seq<char>> {
    match lookup(h.superclass, c) {
        Some(p) => Some(spec_canonical(h, p)),
        None => None,
    }
}

/// The `n`th class up the superclass chain from `c`; `c` itself at zero.
pub open spec fn chain(h: HierarchyView, c: Seq<char>, n: nat) -> Option<Seq<char>>
    decreases n,
{
    if n == 0 {
        Some(c)
    } else {
        match chain(h, c, (n - 1) as nat) {
            Some(x) => step(h, x),
            None => None,
        }
    }
}

/// `class` is `ancestor` or descends from it: the ancestor's canonical name
/// lies on the chain up from the class's.
pub open spec fn spec_descends(h: HierarchyView, class: Seq<char>, ancestor: Seq<char>) -> bool {
    exists|n: nat| chain(h, spec_canonical(h, class), n) == Some(spec_canonical(h, ancestor))
}

/// Two places on one chain that hold the same class stay together above it.
pub proof fn lemma_chain_shift(h: HierarchyView, c: Seq<char>, a: nat, b: nat, k: nat)
    requires
        chain(h, c, a) == chain(h, c, b),
    ensures
        chain(h, c, a + k) == chain(h, c, b + k),
    decreases k,
{
    if k > 0 {
        lemma_chain_shift(h, c, a, b, (k - 1) as nat);
        assert(chain(h, c, a + k) == match chain(h, c, (a + k - 1) as nat) {
            Some(x) => step(h, x),
            None => None,
        });
        assert(chain(h, c, b + k) == match chain(h, c, (b + k - 1) as nat) {
            Some(x) => step(h, x),
            None => None,
        });
    }
}

/// A chain that has ended stays ended.
pub proof fn lemma_chain_ended(h: HierarchyView, c: Seq<char>, a: nat, m: nat)
    requires
        chain(h, c, a) is None,
        a <= m,
    ensures
        chain(h, c, m) is None,
    decreases m - a,
{
    if a < m {
        lemma_chain_ended(h, c, a, (m - 1) as nat);
    }
}

/// Once a chain revisits a class, everything above it was seen before.
pub proof fn lemma_chain_cycle(h: HierarchyView, c: Seq<char>, j: nat, i: nat, m: nat)
    requires
        j < i,
        chain(h, c, i) == chain(h, c, j),
    ensures
        exists|q: nat| q < i && chain(h, c, m) == chain(h, c, q),
    decreases m,
{
    if m < i {
        assert(chain(h, c, m) == chain(h, c, m));
    } else {
        let back = (j + (m - i)) as nat;
        lemma_chain_shift(h, c, i, j, (m - i) as nat);
        assert(chain(h, c, m) == chain(h, c, back));
        lemma_chain_cycle(h, c, j, i, back);
    }
}

/// Following one chain to a class, then that class's chain, follows the first.
pub proof fn lemma_chain_concat(h: HierarchyView, c: Seq<char>, a: nat, d: Seq<char>, b: nat)
    requires
        chain(h, c, a) == Some(d),
    ensures
        chain(h, c, a + b) == chain(h, d, b),
    decreases b,
{
    if b > 0 {
        lemma_chain_concat(h, c, a, d, (b - 1) as nat);
    }
}

impl Hierarchy {
    pub closed spec fn view(&self) -> HierarchyView {
        HierarchyView {
            superclass: pair_views(self.superclass@),
            mixins: pair_views(self.mixins@),
            included: pair_views(self.included@),
            aliases: pair_views(self.aliases@),
            self_extended: string_views(self.self_extended@),
            refines: pair_views(self.refines@),
            constants: string_views(self.constants@),
        }
    }

    /// A hierarchy that knows of no class.
    pub fn new() -> (h: Hierarchy)
        ensures
            h@ == (HierarchyView {
                superclass: Seq::empty(),
                mixins: Seq::empty(),
                included: Seq::empty(),
                aliases: Seq::empty(),
                self_extended: Seq::empty(),
                refines: Seq::empty(),
                constants: Seq::empty(),
            }),
    {
        let h = Hierarchy {
            superclass: Vec::new(),
            mixins: Vec::new(),
            included: Vec::new(),
            aliases: Vec::new(),
            self_extended: Vec::new(),
            refines: Vec::new(),
            constants: Vec::new(),
        };
        assert(h@.superclass =~= Seq::empty());
        assert(h@.mixins =~= Seq::empty());
        assert(h@.included =~= Seq::empty());
        assert(h@.aliases =~= Seq::empty());
        assert(h@.self_extended =~= Seq::empty());
        assert(h@.refines =~= Seq::empty());
        assert(h@.constants =~= Seq::empty());
        h
    }

    /// The class a constant names when written inside `enclosing`: the call
    /// side's half of the lexical rule, so that `Account.new` inside
    /// `module Billing` means `Billing::Account` when that exists.
    pub fn written_at(&self, name: &str, enclosing: Option<&str>) -> (r: String)
        ensures
            r@ == spec_resolve(
                self@.constants,
                name@,
                match enclosing {
                    Some(e) => Some(e@),
                    None => None,
                },
            ),
    {
        resolve_in(&self.constants, name, enclosing)
    }

    /// The class a bare name means, followed through any constant aliases.
    /// Chains resolve, and a cycle stops rather than spins.
    pub fn canonical(&self, name: &str) -> (r: String)
        ensures
            r@ == spec_canonical(self@, name@),
    {
        let ghost al = self@.aliases;
        let mut current = resolve_in(&self.constants, name, None);
        let ghost target = spec_canonical(self@, name@);
        let mut remaining: usize = self.aliases.len();
        loop
            invariant
                al == pair_views(self.aliases@),
                al == self@.aliases,
                target == spec_canonical(self@, name@),
                follow(al, current@, (remaining + 1) as nat) == target,
            decreases remaining,
        {
            match key_index(&self.aliases, current.as_str()) {
                Some(i) => {
                    assert(lookup(al, current@) == Some(self.aliases@[i as int].1@));
                    if str_eq(self.aliases[i].1.as_str(), current.as_str()) {
                        assert(follow(al, current@, (remaining + 1) as nat) == current@);
                        return current;
                    }
                    assert(follow(al, current@, (remaining + 1) as nat) == follow(al, self.aliases@[i as int].1@, remaining as nat));
                    current = owned(self.aliases[i].1.as_str());
                },
                None => {
                    assert(follow(al, current@, (remaining + 1) as nat) == current@);
                    return current;
                },
            }
            if remaining == 0 {
                return current;
            }
            remaining -= 1;
        }
    }

    /// Whether two names mean one class.
    pub fn same_class(&self, one: &str, other: &str) -> (r: bool)
        ensures
            r == (one@ == other@ || spec_canonical(self@, one@) == spec_canonical(self@, other@)),
    {
        if str_eq(one, other) {
            return true;
        }
        let a = self.canonical(one);
        let b = self.canonical(other);
        str_eq(a.as_str(), b.as_str())
    }

    /// Whether `class` is `ancestor` or descends from it. A cycle, which valid
    /// Ruby cannot express but a half-written file can, ends the walk.
    pub fn descends_from(&self, class: &str, ancestor: &str) -> (r: bool)
        ensures
            r == spec_descends(self@, class@, ancestor@),
    {
        let ghost h = self@;
        let goal = self.canonical(ancestor);
        let mut current = self.canonical(class);
        let ghost c0 = current@;
        let n = self.superclass.len();
        let mut visited: Vec<bool> = Vec::new();
        let mut k: usize = 0;
        while k < n
            invariant
                k <= n,
                visited@.len() == k,
                forall|j: int| 0 <= j < k ==> !visited@[j],
            decreases n - k,
        {
            visited.push(false);
            k += 1;
        }
        let ghost mut i: nat = 0;
        let ghost mut marked: Set<int> = Set::empty();
        loop
            invariant
                h == self@,
                c0 == spec_canonical(h, class@),
                goal@ == spec_canonical(h, ancestor@),
                n == self.superclass@.len(),
                visited@.len() == n,
                chain(h, c0, i) == Some(current@),
                forall|j: nat| j < i ==> (#[trigger] chain(h, c0, j)) is Some && chain(h, c0, j)->0 != goal@,
                forall|x: int| 0 <= x < n ==> (visited@[x] <==> marked.contains(x)),
                marked.finite(),
                marked.subset_of(vstd::set_lib::set_int_range(0, n as int)),
                marked.len() == i,
                forall|x: int|
                    #![trigger marked.contains(x)]
                    marked.contains(x) ==> exists|j: nat| j < i && chain(h, c0, j) == Some(self.superclass@[x].0@),
            decreases n - marked.len(),
        {
            if str_eq(current.as_str(), goal.as_str()) {
                assert(chain(h, c0, i) == Some(goal@));
                assert(chain(h, spec_canonical(h, class@), i) == Some(spec_canonical(h, ancestor@)));
                return true;
            }
            match key_index(&self.superclass, current.as_str()) {
                None => {
                    proof {
                        assert(step(h, current@) is None);
                        assert(chain(h, c0, i + 1) is None);
                        assert forall|m: nat| chain(h, c0, m) != Some(goal@) by {
                            if m > i {
                                lemma_chain_ended(h, c0, i + 1, m);
                            } else if m < i {
                                assert(chain(h, c0, m) is Some);
                            }
                        }
                    }
                    return false;
                },
                Some(x) => {
                    if visited[x] {
                        proof {
                            assert(marked.contains(x as int));
                            let j = choose|j: nat| j < i && chain(h, c0, j) == Some(self.superclass@[x as int].0@);
                            assert(chain(h, c0, i) == chain(h, c0, j));
                            assert forall|m: nat| chain(h, c0, m) != Some(goal@) by {
                                lemma_chain_cycle(h, c0, j, i, m);
                                let q = choose|q: nat| q < i && chain(h, c0, m) == chain(h, c0, q);
                                assert(chain(h, c0, q) is Some);
                            }
                        }
                        return false;
                    }
                    proof {
                        vstd::set_lib::lemma_int_range(0, n as int);
                        vstd::set_lib::lemma_len_subset(marked, vstd::set_lib::set_int_range(0, n as int));
                        assert(!marked.contains(x as int));
                    }
                    visited.set(x, true);
                    let next = self.canonical(self.superclass[x].1.as_str());
                    proof {
                        assert(lookup(h.superclass, current@) == Some(self.superclass@[x as int].1@));
                        assert(step(h, current@) == Some(next@));
                        assert(chain(h, c0, i + 1) == Some(next@));
                        assert(chain(h, c0, i) == Some(self.superclass@[x as int].0@));
                        let old_marked = marked;
                        marked = marked.insert(x as int);
                        assert(marked.len() == old_marked.len() + 1);
                        assert(marked.subset_of(vstd::set_lib::set_int_range(0, n as int)));
                        vstd::set_lib::lemma_len_subset(marked, vstd::set_lib::set_int_range(0, n as int));
                        assert forall|y: int|
                            #![trigger marked.contains(y)]
                            marked.contains(y) implies exists|j: nat|
                                j < i + 1 && chain(h, c0, j) == Some(self.superclass@[y].0@) by {
                            if y == x {
                                assert(chain(h, c0, i) == Some(self.superclass@[y].0@));
                            } else {
                                assert(old_marked.contains(y));
                            }
                        }
                        i = i + 1;
                    }
                    current = next;
                },
            }
        }
    }
}

/// Whether `module` is mixed into `class` or one of its descendants.
pub open spec fn spec_contributes(h: HierarchyView, module: Seq<char>, class: Seq<char>) -> bool {
    exists|k: int|
        0 <= k < h.mixins.len() && h.mixins[k].1 == spec_canonical(h, module) && spec_descends(
            h,
            #[trigger] h.mixins[k].0,
            class,
        )
}

/// Whether some class includes `module` on its instance table, and every class
/// that does is `class` or descends from it.
pub open spec fn spec_may_rename_into(h: HierarchyView, module: Seq<char>, class: Seq<char>) -> bool {
    &&& exists|k: int| 0 <= k < h.included.len() && #[trigger] h.included[k].1 == spec_canonical(h, module)
    &&& forall|k: int|
        0 <= k < h.included.len() && #[trigger] h.included[k].1 == spec_canonical(h, module) ==> spec_descends(
            h,
            h.included[k].0,
            class,
        )
}

/// The modules of the pairs whose host is `host`, in order.
pub open spec fn modules_of(s: Seq<(Seq<char>, Seq<char>)>, host: Seq<char>) -> Seq<Seq<char>>
    decreases s.len(),
{
    if s.len() == 0 {
        Seq::empty()
    } else if s.last().0 == host {
        modules_of(s.drop_last(), host).push(s.last().1)
    } else {
        modules_of(s.drop_last(), host)
    }
}

impl Hierarchy {
    /// Whether `module` is mixed into `class` or any of its descendants: is an
    /// occurrence in this module part of the class a rule is about?
    pub fn contributes_to(&self, module: &str, class: &str) -> (r: bool)
        ensures
            r == spec_contributes(self@, module@, class@),
    {
        let ghost h = self@;
        let m = self.canonical(module);
        let mut k: usize = 0;
        while k < self.mixins.len()
            invariant
                h == self@,
                m@ == spec_canonical(h, module@),
                k <= self.mixins@.len(),
                forall|j: int|
                    0 <= j < k ==> !(h.mixins[j].1 == m@ && spec_descends(h, #[trigger] h.mixins[j].0, class@)),
            decreases self.mixins@.len() - k,
        {
            if str_eq(self.mixins[k].1.as_str(), m.as_str()) && self.descends_from(self.mixins[k].0.as_str(), class) {
                assert(h.mixins[k as int].1 == m@);
                assert(h.mixins[k as int].0 == self.mixins@[k as int].0@);
                assert(spec_descends(h, h.mixins[k as int].0, class@));
                return true;
            }
            k += 1;
        }
        false
    }

    /// Whether a rename anchored on `class` may move an instance-method
    /// definition written in `module`: the module reaches `class` on the
    /// instance side, and no class outside `class`'s descendants shares it.
    pub fn may_rename_into(&self, module: &str, class: &str) -> (r: bool)
        ensures
            r == spec_may_rename_into(self@, module@, class@),
    {
        let ghost h = self@;
        let m = self.canonical(module);
        let mut any = false;
        let mut k: usize = 0;
        while k < self.included.len()
            invariant
                h == self@,
                m@ == spec_canonical(h, module@),
                k <= self.included@.len(),
                any == exists|j: int| 0 <= j < k && #[trigger] h.included[j].1 == m@,
                forall|j: int| 0 <= j < k && #[trigger] h.included[j].1 == m@ ==> spec_descends(h, h.included[j].0, class@),
            decreases self.included@.len() - k,
        {
            if str_eq(self.included[k].1.as_str(), m.as_str()) {
                assert(h.included[k as int].1 == m@);
                if !self.descends_from(self.included[k].0.as_str(), class) {
                    return false;
                }
                any = true;
            }
            k += 1;
        }
        any
    }

    /// The modules that refine `class`, in the order they were seen. A call
    /// site in a file that activates one may be dispatching to the refinement.
    pub fn refined_by(&self, class: &str) -> (r: Vec<String>)
        ensures
            string_views(r@) == modules_of(self@.refines, spec_canonical(self@, class@)),
    {
        let ghost h = self@;
        let c = self.canonical(class);
        let mut out: Vec<String> = Vec::new();
        let mut k: usize = 0;
        while k < self.refines.len()
            invariant
                h == self@,
                k <= self.refines@.len(),
                string_views(out@) == modules_of(h.refines.take(k as int), c@),
            decreases self.refines@.len() - k,
        {
            proof {
                assert(h.refines.take(k + 1).drop_last() =~= h.refines.take(k as int));
                assert(h.refines.take(k + 1).last() == h.refines[k as int]);
            }
            if str_eq(self.refines[k].0.as_str(), c.as_str()) {
                let ghost was = string_views(out@);
                out.push(owned(self.refines[k].1.as_str()));
                proof {
                    assert(string_views(out@) =~= was.push(h.refines[k as int].1));
                }
            }
            k += 1;
        }
        proof {
            assert(h.refines.take(self.refines@.len() as int) =~= h.refines);
        }
        out
    }

    /// Whether this module's instance methods answer on the module itself, so
    /// that `Util.foo` and `Util#foo` name one method.
    pub fn extends_itself(&self, class: &str) -> (r: bool)
        ensures
            r == self@.self_extended.contains(spec_canonical(self@, class@)),
    {
        let c = self.canonical(class);
        known(&self.self_extended, c.as_str())
    }
}

/// A class descends from itself.
pub proof fn law_a_class_descends_from_itself(h: HierarchyView, class: Seq<char>)
    ensures
        spec_descends(h, class, class),
{
    assert(chain(h, spec_canonical(h, class), 0) == Some(spec_canonical(h, class)));
}

/// Descent is transitive.
pub proof fn law_descent_is_transitive(h: HierarchyView, a: Seq<char>, b: Seq<char>, c: Seq<char>)
    requires
        spec_descends(h, a, b),
        spec_descends(h, b, c),
    ensures
        spec_descends(h, a, c),
{
    let n = choose|n: nat| chain(h, spec_canonical(h, a), n) == Some(spec_canonical(h, b));
    let m = choose|m: nat| chain(h, spec_canonical(h, b), m) == Some(spec_canonical(h, c));
    lemma_chain_concat(h, spec_canonical(h, a), n, spec_canonical(h, b), m);
    assert(chain(h, spec_canonical(h, a), n + m) == Some(spec_canonical(h, c)));
}

/// A module mixed into a class contributes to that class and to every class
/// it descends from.
pub proof fn law_a_mixin_contributes_to_its_host_and_what_the_host_descends_from(
    h: HierarchyView,
    k: int,
    class: Seq<char>,
)
    requires
        0 <= k < h.mixins.len(),
        spec_descends(h, h.mixins[k].0, class),
        spec_resolve(h.constants, h.mixins[k].1, None) == h.mixins[k].1,
        lookup(h.aliases, h.mixins[k].1) is None,
    ensures
        spec_contributes(h, h.mixins[k].1, class),
{
    assert(spec_canonical(h, h.mixins[k].1) == h.mixins[k].1);
}

/// Where the last pair with key `k` is.
proof fn lemma_last_index(s: Seq<(Seq<char>, Seq<char>)>, k: Seq<char>, i: int)
    requires
        0 <= i < s.len(),
        s[i].0 == k,
        forall|j: int| i < j < s.len() ==> s[j].0 != k,
    ensures
        last_index(s, k) == Some(i),
    decreases s.len(),
{
    if i < s.len() - 1 {
        lemma_last_index(s.drop_last(), k, i);
    }
}

/// No pair has key `k`.
proof fn lemma_last_index_none(s: Seq<(Seq<char>, Seq<char>)>, k: Seq<char>)
    requires
        forall|j: int| 0 <= j < s.len() ==> s[j].0 != k,
    ensures
        last_index(s, k) is None,
    decreases s.len(),
{
    if s.len() > 0 {
        lemma_last_index_none(s.drop_last(), k);
    }
}

/// Insert `k -> val` into an association list, as a map's insert.
fn put_pair(pairs: &mut Vec<(String, String)>, k: String, val: String)
    ensures
        pair_views(final(pairs)@) == put(pair_views(old(pairs)@), k@, val@),
{
    let ghost before = pair_views(pairs@);
    match key_index(pairs, k.as_str()) {
        Some(i) => {
            proof {
                lemma_last_index(before, k@, i as int);
            }
            pairs.set(i, (k, val));
            proof {
                assert(pair_views(pairs@) =~= before.update(i as int, (k@, val@)));
            }
        },
        None => {
            proof {
                lemma_last_index_none(before, k@);
            }
            pairs.push((k, val));
            proof {
                assert(pair_views(pairs@) =~= before.push((k@, val@)));
            }
        },
    }
}

/// What one file says about its classes, before any name is resolved.
pub struct Collected {
    /// Qualified names of the classes and modules the file declares.
    pub declared: Vec<String>,
    /// `(class, superclass as written)`.
    pub superclass: Vec<(String, Ref)>,
    /// `(host, module)` for every mixin call.
    pub mixins: Vec<(Ref, Ref)>,
    /// The mixins that reach the host's instance table.
    pub included: Vec<(Ref, Ref)>,
    /// `(refined class, refining module)`.
    pub refines: Vec<(Ref, Ref)>,
    /// Modules that extend themselves.
    pub self_extended: Vec<String>,
    /// `(alias, class as written)`.
    pub aliases: Vec<(String, Ref)>,
}

pub struct CollectedView {
    pub declared: Seq<Seq<char>>,
    pub superclass: Seq<(Seq<char>, RefView)>,
    pub mixins: Seq<(RefView, RefView)>,
    pub included: Seq<(RefView, RefView)>,
    pub refines: Seq<(RefView, RefView)>,
    pub self_extended: Seq<Seq<char>>,
    pub aliases: Seq<(Seq<char>, RefView)>,
}

pub open spec fn named_views(v: Seq<(String, Ref)>) -> Seq<(Seq<char>, RefView)> {
    v.map_values(|p: (String, Ref)| (p.0@, p.1.view()))
}

pub open spec fn ref_views(v: Seq<(Ref, Ref)>) -> Seq<(RefView, RefView)> {
    v.map_values(|p: (Ref, Ref)| (p.0.view(), p.1.view()))
}

/// The names a list of `(name, reference)` mentions, two per entry.
pub open spec fn named_mentions(s: Seq<(Seq<char>, RefView)>) -> Seq<Seq<char>>
    decreases s.len(),
{
    if s.len() == 0 {
        Seq::empty()
    } else {
        named_mentions(s.drop_last()).push(s.last().0).push(s.last().1.written)
    }
}

/// The names a list of `(reference, reference)` mentions, two per entry.
pub open spec fn ref_mentions(s: Seq<(RefView, RefView)>) -> Seq<Seq<char>>
    decreases s.len(),
{
    if s.len() == 0 {
        Seq::empty()
    } else {
        ref_mentions(s.drop_last()).push(s.last().0.written).push(s.last().1.written)
    }
}

/// Every constant a file saw, declared or referred to.
pub open spec fn spec_constants(c: CollectedView) -> Seq<Seq<char>> {
    c.declared + c.self_extended + named_mentions(c.superclass) + named_mentions(c.aliases) + ref_mentions(
        c.mixins,
    ) + ref_mentions(c.refines)
}

fn copy_named(v: &Vec<(String, Ref)>) -> (r: Vec<(String, Ref)>)
    ensures
        named_views(r@) == named_views(v@),
{
    let mut out: Vec<(String, Ref)> = Vec::new();
    let mut k: usize = 0;
    while k < v.len()
        invariant
            k <= v@.len(),
            named_views(out@) == named_views(v@).take(k as int),
        decreases v@.len() - k,
    {
        let ghost was = named_views(out@);
        out.push((owned(v[k].0.as_str()), v[k].1.duplicate()));
        proof {
            assert(named_views(out@) =~= was.push((v@[k as int].0@, v@[k as int].1.view())));
            assert(named_views(v@).take(k + 1) =~= named_views(v@).take(k as int).push(named_views(v@)[k as int]));
            assert(named_views(out@) =~= named_views(v@).take(k + 1));
        }
        k += 1;
    }
    proof {
        assert(named_views(v@).take(v@.len() as int) =~= named_views(v@));
    }
    out
}

fn copy_refs(v: &Vec<(Ref, Ref)>) -> (r: Vec<(Ref, Ref)>)
    ensures
        ref_views(r@) == ref_views(v@),
{
    let mut out: Vec<(Ref, Ref)> = Vec::new();
    let mut k: usize = 0;
    while k < v.len()
        invariant
            k <= v@.len(),
            ref_views(out@) == ref_views(v@).take(k as int),
        decreases v@.len() - k,
    {
        let ghost was = ref_views(out@);
        out.push((v[k].0.duplicate(), v[k].1.duplicate()));
        proof {
            assert(ref_views(out@) =~= was.push((v@[k as int].0.view(), v@[k as int].1.view())));
            assert(ref_views(v@).take(k + 1) =~= ref_views(v@).take(k as int).push(ref_views(v@)[k as int]));
            assert(ref_views(out@) =~= ref_views(v@).take(k + 1));
        }
        k += 1;
    }
    proof {
        assert(ref_views(v@).take(v@.len() as int) =~= ref_views(v@));
    }
    out
}

fn push_named_mentions(out: &mut Vec<String>, v: &Vec<(String, Ref)>)
    ensures
        string_views(final(out)@) == string_views(old(out)@) + named_mentions(named_views(v@)),
{
    let ghost start = string_views(out@);
    let ghost nv = named_views(v@);
    let mut k: usize = 0;
    while k < v.len()
        invariant
            k <= v@.len(),
            nv == named_views(v@),
            string_views(out@) == start + named_mentions(nv.take(k as int)),
        decreases v@.len() - k,
    {
        proof {
            assert(nv.take(k + 1).drop_last() =~= nv.take(k as int));
        }
        let ghost was = string_views(out@);
        out.push(owned(v[k].0.as_str()));
        out.push(owned(v[k].1.written.as_str()));
        proof {
            assert(string_views(out@) =~= was.push(nv[k as int].0).push(nv[k as int].1.written));
            assert(string_views(out@) =~= start + named_mentions(nv.take(k + 1)));
        }
        k += 1;
    }
    proof {
        assert(nv.take(v@.len() as int) =~= nv);
    }
}

fn push_ref_mentions(out: &mut Vec<String>, v: &Vec<(Ref, Ref)>)
    ensures
        string_views(final(out)@) == string_views(old(out)@) + ref_mentions(ref_views(v@)),
{
    let ghost start = string_views(out@);
    let ghost rv = ref_views(v@);
    let mut k: usize = 0;
    while k < v.len()
        invariant
            k <= v@.len(),
            rv == ref_views(v@),
            string_views(out@) == start + ref_mentions(rv.take(k as int)),
        decreases v@.len() - k,
    {
        proof {
            assert(rv.take(k + 1).drop_last() =~= rv.take(k as int));
        }
        let ghost was = string_views(out@);
        out.push(owned(v[k].0.written.as_str()));
        out.push(owned(v[k].1.written.as_str()));
        proof {
            assert(string_views(out@) =~= was.push(rv[k as int].0.written).push(rv[k as int].1.written));
            assert(string_views(out@) =~= start + ref_mentions(rv.take(k + 1)));
        }
        k += 1;
    }
    proof {
        assert(rv.take(v@.len() as int) =~= rv);
    }
}

fn push_strings(out: &mut Vec<String>, v: &Vec<String>)
    ensures
        string_views(final(out)@) == string_views(old(out)@) + string_views(v@),
{
    let ghost start = string_views(out@);
    let mut k: usize = 0;
    while k < v.len()
        invariant
            k <= v@.len(),
            string_views(out@) == start + string_views(v@).take(k as int),
        decreases v@.len() - k,
    {
        let ghost was = string_views(out@);
        out.push(owned(v[k].as_str()));
        proof {
            assert(string_views(out@) =~= was.push(v@[k as int]@));
            assert(string_views(v@).take(k + 1) =~= string_views(v@).take(k as int).push(v@[k as int]@));
            assert(string_views(out@) =~= start + string_views(v@).take(k + 1));
        }
        k += 1;
    }
    proof {
        assert(string_views(v@).take(v@.len() as int) =~= string_views(v@));
    }
}

impl Collected {
    pub open spec fn view(&self) -> CollectedView {
        CollectedView {
            declared: string_views(self.declared@),
            superclass: named_views(self.superclass@),
            mixins: ref_views(self.mixins@),
            included: ref_views(self.included@),
            refines: ref_views(self.refines@),
            self_extended: string_views(self.self_extended@),
            aliases: named_views(self.aliases@),
        }
    }

    /// Nothing collected yet.
    pub fn new() -> (c: Collected)
        ensures
            c.declared@.len() == 0,
            c.superclass@.len() == 0,
            c.mixins@.len() == 0,
            c.included@.len() == 0,
            c.refines@.len() == 0,
            c.self_extended@.len() == 0,
            c.aliases@.len() == 0,
            c.view() == no_links(),
    {
        let c = Collected {
            declared: Vec::new(),
            superclass: Vec::new(),
            mixins: Vec::new(),
            included: Vec::new(),
            refines: Vec::new(),
            self_extended: Vec::new(),
            aliases: Vec::new(),
        };
        assert(c.view().declared =~= no_links().declared);
        assert(c.view().superclass =~= no_links().superclass);
        assert(c.view().mixins =~= no_links().mixins);
        assert(c.view().included =~= no_links().included);
        assert(c.view().refines =~= no_links().refines);
        assert(c.view().self_extended =~= no_links().self_extended);
        assert(c.view().aliases =~= no_links().aliases);
        c
    }

    /// Add what another file collected after what this one holds.
    pub fn absorb(&mut self, other: Collected)
        ensures
            final(self).view() == (CollectedView {
                declared: old(self).view().declared + other.view().declared,
                superclass: old(self).view().superclass + other.view().superclass,
                mixins: old(self).view().mixins + other.view().mixins,
                included: old(self).view().included + other.view().included,
                refines: old(self).view().refines + other.view().refines,
                self_extended: old(self).view().self_extended + other.view().self_extended,
                aliases: old(self).view().aliases + other.view().aliases,
            }),
    {
        let ghost was = self.view();
        let ghost add = other.view();
        let mut other = other;
        self.declared.append(&mut other.declared);
        self.superclass.append(&mut other.superclass);
        self.mixins.append(&mut other.mixins);
        self.included.append(&mut other.included);
        self.refines.append(&mut other.refines);
        self.self_extended.append(&mut other.self_extended);
        self.aliases.append(&mut other.aliases);
        proof {
            assert(self.view().declared =~= was.declared + add.declared);
            assert(self.view().superclass =~= was.superclass + add.superclass);
            assert(self.view().mixins =~= was.mixins + add.mixins);
            assert(self.view().included =~= was.included + add.included);
            assert(self.view().refines =~= was.refines + add.refines);
            assert(self.view().self_extended =~= was.self_extended + add.self_extended);
            assert(self.view().aliases =~= was.aliases + add.aliases);
        }
    }

    /// Every constant name this file saw, declared or referred to: the
    /// declarations and self-extensions, then both names of every superclass
    /// link, alias, mixin and refinement.
    pub fn constants(&self) -> (r: Vec<String>)
        ensures
            string_views(r@) == spec_constants(self.view()),
    {
        let mut out: Vec<String> = Vec::new();
        push_strings(&mut out, &self.declared);
        push_strings(&mut out, &self.self_extended);
        push_named_mentions(&mut out, &self.superclass);
        push_named_mentions(&mut out, &self.aliases);
        push_ref_mentions(&mut out, &self.mixins);
        push_ref_mentions(&mut out, &self.refines);
        proof {
            assert(string_views(out@) =~= spec_constants(self.view()));
        }
        out
    }
}

/// The constants, each once, in the order first seen.
pub open spec fn dedup(s: Seq<Seq<char>>) -> Seq<Seq<char>>
    decreases s.len(),
{
    if s.len() == 0 {
        Seq::empty()
    } else if dedup(s.drop_last()).contains(s.last()) {
        dedup(s.drop_last())
    } else {
        dedup(s.drop_last()).push(s.last())
    }
}

/// The class a reference names.
pub open spec fn resolve_ref(cs: Seq<Seq<char>>, r: RefView) -> Seq<char> {
    spec_resolve(cs, r.written, r.enclosing)
}

/// The alias map, built by inserting each resolved alias that names another
/// class than itself.
pub open spec fn alias_table(cs: Seq<Seq<char>>, al: Seq<(Seq<char>, RefView)>) -> Seq<(Seq<char>, Seq<char>)>
    decreases al.len(),
{
    if al.len() == 0 {
        Seq::empty()
    } else if spec_resolve(cs, al.last().0, None) == resolve_ref(cs, al.last().1) {
        alias_table(cs, al.drop_last())
    } else {
        put(alias_table(cs, al.drop_last()), spec_resolve(cs, al.last().0, None), resolve_ref(cs, al.last().1))
    }
}

pub open spec fn resolved_named(cs: Seq<Seq<char>>, s: Seq<(Seq<char>, RefView)>) -> Seq<(Seq<char>, Seq<char>)> {
    s.map_values(|p: (Seq<char>, RefView)| (spec_resolve(cs, p.0, None), resolve_ref(cs, p.1)))
}

pub open spec fn resolved_refs(cs: Seq<Seq<char>>, s: Seq<(RefView, RefView)>) -> Seq<(Seq<char>, Seq<char>)> {
    s.map_values(|p: (RefView, RefView)| (resolve_ref(cs, p.0), resolve_ref(cs, p.1)))
}

pub open spec fn resolved_names(cs: Seq<Seq<char>>, s: Seq<Seq<char>>) -> Seq<Seq<char>> {
    s.map_values(|n: Seq<char>| spec_resolve(cs, n, None))
}

/// The hierarchy a run's collected links describe, once every written name is
/// resolved against every constant the run saw.
pub open spec fn spec_from_collected(c: CollectedView, constants: Seq<Seq<char>>) -> HierarchyView {
    HierarchyView {
        superclass: resolved_named(dedup(constants), c.superclass),
        mixins: resolved_refs(dedup(constants), c.mixins),
        included: resolved_refs(dedup(constants), c.included),
        aliases: alias_table(dedup(constants), c.aliases),
        self_extended: resolved_names(dedup(constants), c.self_extended),
        refines: resolved_refs(dedup(constants), c.refines),
        constants: dedup(constants),
    }
}

fn once_each(v: &Vec<String>) -> (r: Vec<String>)
    ensures
        string_views(r@) == dedup(string_views(v@)),
{
    let ghost sv = string_views(v@);
    let mut out: Vec<String> = Vec::new();
    let mut k: usize = 0;
    while k < v.len()
        invariant
            k <= v@.len(),
            sv == string_views(v@),
            string_views(out@) == dedup(sv.take(k as int)),
        decreases v@.len() - k,
    {
        proof {
            assert(sv.take(k + 1).drop_last() =~= sv.take(k as int));
            assert(sv.take(k + 1).last() == v@[k as int]@);
        }
        if !known(&out, v[k].as_str()) {
            let ghost was = string_views(out@);
            out.push(owned(v[k].as_str()));
            proof {
                assert(string_views(out@) =~= was.push(v@[k as int]@));
            }
        }
        k += 1;
    }
    proof {
        assert(sv.take(v@.len() as int) =~= sv);
    }
    out
}

fn resolve_reference(cs: &Vec<String>, r: &Ref) -> (s: String)
    ensures
        s@ == resolve_ref(string_views(cs@), r.view()),
{
    match &r.enclosing {
        Some(e) => resolve_in(cs, r.written.as_str(), Some(e.as_str())),
        None => resolve_in(cs, r.written.as_str(), None),
    }
}

fn resolve_named_pairs(cs: &Vec<String>, v: &Vec<(String, Ref)>) -> (r: Vec<(String, String)>)
    ensures
        pair_views(r@) == resolved_named(string_views(cs@), named_views(v@)),
{
    let ghost c = string_views(cs@);
    let ghost target = resolved_named(c, named_views(v@));
    let mut out: Vec<(String, String)> = Vec::new();
    let mut k: usize = 0;
    while k < v.len()
        invariant
            k <= v@.len(),
            c == string_views(cs@),
            target == resolved_named(c, named_views(v@)),
            pair_views(out@) == target.take(k as int),
        decreases v@.len() - k,
    {
        let ghost was = pair_views(out@);
        let a = resolve_in(cs, v[k].0.as_str(), None);
        let b = resolve_reference(cs, &v[k].1);
        out.push((a, b));
        proof {
            assert(pair_views(out@) =~= was.push(target[k as int]));
            assert(target.take(k + 1) =~= target.take(k as int).push(target[k as int]));
        }
        k += 1;
    }
    proof {
        assert(target.take(v@.len() as int) =~= target);
    }
    out
}

fn resolve_ref_pairs(cs: &Vec<String>, v: &Vec<(Ref, Ref)>) -> (r: Vec<(String, String)>)
    ensures
        pair_views(r@) == resolved_refs(string_views(cs@), ref_views(v@)),
{
    let ghost c = string_views(cs@);
    let ghost target = resolved_refs(c, ref_views(v@));
    let mut out: Vec<(String, String)> = Vec::new();
    let mut k: usize = 0;
    while k < v.len()
        invariant
            k <= v@.len(),
            c == string_views(cs@),
            target == resolved_refs(c, ref_views(v@)),
            pair_views(out@) == target.take(k as int),
        decreases v@.len() - k,
    {
        let ghost was = pair_views(out@);
        let a = resolve_reference(cs, &v[k].0);
        let b = resolve_reference(cs, &v[k].1);
        out.push((a, b));
        proof {
            assert(pair_views(out@) =~= was.push(target[k as int]));
            assert(target.take(k + 1) =~= target.take(k as int).push(target[k as int]));
        }
        k += 1;
    }
    proof {
        assert(target.take(v@.len() as int) =~= target);
    }
    out
}

fn build_aliases(cs: &Vec<String>, v: &Vec<(String, Ref)>) -> (r: Vec<(String, String)>)
    ensures
        pair_views(r@) == alias_table(string_views(cs@), named_views(v@)),
{
    let ghost c = string_views(cs@);
    let ghost nv = named_views(v@);
    let mut out: Vec<(String, String)> = Vec::new();
    let mut k: usize = 0;
    while k < v.len()
        invariant
            k <= v@.len(),
            c == string_views(cs@),
            nv == named_views(v@),
            pair_views(out@) == alias_table(c, nv.take(k as int)),
        decreases v@.len() - k,
    {
        proof {
            assert(nv.take(k + 1).drop_last() =~= nv.take(k as int));
            assert(nv.take(k + 1).last() == nv[k as int]);
        }
        let name = resolve_in(cs, v[k].0.as_str(), None);
        let target = resolve_reference(cs, &v[k].1);
        if !str_eq(name.as_str(), target.as_str()) {
            put_pair(&mut out, name, target);
        }
        k += 1;
    }
    proof {
        assert(nv.take(v@.len() as int) =~= nv);
    }
    out
}

fn resolve_names(cs: &Vec<String>, v: &Vec<String>) -> (r: Vec<String>)
    ensures
        string_views(r@) == resolved_names(string_views(cs@), string_views(v@)),
{
    let ghost c = string_views(cs@);
    let ghost target = resolved_names(c, string_views(v@));
    let mut out: Vec<String> = Vec::new();
    let mut k: usize = 0;
    while k < v.len()
        invariant
            k <= v@.len(),
            c == string_views(cs@),
            target == resolved_names(c, string_views(v@)),
            string_views(out@) == target.take(k as int),
        decreases v@.len() - k,
    {
        let ghost was = string_views(out@);
        out.push(resolve_in(cs, v[k].as_str(), None));
        proof {
            assert(string_views(out@) =~= was.push(target[k as int]));
            assert(target.take(k + 1) =~= target.take(k as int).push(target[k as int]));
        }
        k += 1;
    }
    proof {
        assert(target.take(v@.len() as int) =~= target);
    }
    out
}

impl Hierarchy {
    /// Turn written references into class names, once every file is in.
    /// `constants` is every constant the run saw; each counts once.
    pub fn from_collected(all: Collected, constants: Vec<String>) -> (h: Hierarchy)
        ensures
            h@ == spec_from_collected(all.view(), string_views(constants@)),
    {
        let cs = once_each(&constants);
        let h = Hierarchy {
            aliases: build_aliases(&cs, &all.aliases),
            superclass: resolve_named_pairs(&cs, &all.superclass),
            mixins: resolve_ref_pairs(&cs, &all.mixins),
            included: resolve_ref_pairs(&cs, &all.included),
            refines: resolve_ref_pairs(&cs, &all.refines),
            self_extended: resolve_names(&cs, &all.self_extended),
            constants: cs,
        };
        h
    }
}

/// Nothing collected.
pub open spec fn no_links() -> CollectedView {
    CollectedView {
        declared: Seq::empty(),
        superclass: Seq::empty(),
        mixins: Seq::empty(),
        included: Seq::empty(),
        refines: Seq::empty(),
        self_extended: Seq::empty(),
        aliases: Seq::empty(),
    }
}

/// One collection followed by another.
pub open spec fn then(a: CollectedView, b: CollectedView) -> CollectedView {
    CollectedView {
        declared: a.declared + b.declared,
        superclass: a.superclass + b.superclass,
        mixins: a.mixins + b.mixins,
        included: a.included + b.included,
        refines: a.refines + b.refines,
        self_extended: a.self_extended + b.self_extended,
        aliases: a.aliases + b.aliases,
    }
}

/// The calls that attach one module's methods to another class.
pub open spec fn is_mixin_call(name: Seq<char>) -> bool {
    name == "include"@ || name == "prepend"@ || name == "extend"@ || name == "refine"@
}

/// The constants among some arguments, in order.
pub open spec fn named_constants(args: Seq<Expr>) -> Seq<Seq<char>>
    decreases args.len(),
{
    if args.len() == 0 {
        Seq::empty()
    } else {
        match spec_qualified(args.last()) {
            Some(c) => named_constants(args.drop_last()).push(c),
            None => named_constants(args.drop_last()),
        }
    }
}

proof fn lemma_named_constants(args: Seq<Expr>)
    ensures
        named_constants(args) == args.filter_map(|e: Expr| spec_qualified(e)),
        forall|i: int|
            0 <= i < args.len() && spec_qualified(#[trigger] args[i]) is Some ==> named_constants(args).contains(
                spec_qualified(args[i])->Some_0,
            ),
    decreases args.len(),
{
    if args.len() > 0 {
        let rest = args.drop_last();
        lemma_named_constants(rest);
        let f = |e: Expr| spec_qualified(e);
        match spec_qualified(args.last()) {
            Some(c) => {
                assert(named_constants(args) =~= rest.filter_map(f) + seq![c]);
            },
            None => {},
        }
        assert forall|i: int|
            0 <= i < args.len() && spec_qualified(#[trigger] args[i]) is Some implies named_constants(args).contains(
                spec_qualified(args[i])->Some_0,
            ) by {
            if i < args.len() - 1 {
                assert(rest[i] == args[i]);
                let j = choose|j: int| 0 <= j < named_constants(rest).len() && named_constants(rest)[j] == spec_qualified(rest[i])->Some_0;
                assert(named_constants(args)[j] == named_constants(rest)[j]);
            } else {
                assert(named_constants(args)[named_constants(rest).len() as int] == spec_qualified(args[i])->Some_0);
            }
        }
    }
}

/// A mixin call (`include`, `prepend`, `extend`, `refine`) names exactly its
/// constant arguments, in the order they are written: every argument that
/// names a constant is one module mixed in, and nothing else is. Any other
/// call, and any other node, mixes in nothing.
pub proof fn law_a_mixin_call_names_each_constant_argument(s: Shape)
    ensures
        s matches Shape::Call { name, arguments, .. } ==> {
            &&& (name@ == "include"@ || name@ == "prepend"@ || name@ == "extend"@ || name@ == "refine"@)
                ==> spec_mixed_in(s) == arguments@.filter_map(|e: Expr| spec_qualified(e))
            &&& (name@ == "include"@ || name@ == "prepend"@ || name@ == "extend"@ || name@ == "refine"@)
                ==> forall|i: int|
                0 <= i < arguments@.len() && spec_qualified(#[trigger] arguments@[i]) is Some ==> spec_mixed_in(s).contains(
                    spec_qualified(arguments@[i])->Some_0,
                )
            &&& !(name@ == "include"@ || name@ == "prepend"@ || name@ == "extend"@ || name@ == "refine"@)
                ==> spec_mixed_in(s).len() == 0
        },
        !(s is Call) ==> spec_mixed_in(s).len() == 0,
{
    match s {
        Shape::Call { name, arguments, .. } => {
            lemma_named_constants(arguments@);
        },
        _ => {},
    }
}

proof fn lemma_refs_to(host: RefView, modules: Seq<Seq<char>>, enclosing: Option<Seq<char>>)
    ensures
        refs_to(host, modules, enclosing).len() == modules.len(),
        forall|i: int|
            0 <= i < modules.len() ==> #[trigger] refs_to(host, modules, enclosing)[i] == (
                host,
                RefView { written: modules[i], enclosing },
            ),
    decreases modules.len(),
{
    if modules.len() > 0 {
        lemma_refs_to(host, modules.drop_last(), enclosing);
    }
}

/// An `include`, `prepend` or `extend` call with a host links that host to
/// every constant among its arguments, one link each, in the order written;
/// `include` and `prepend` also count each as included in the host.
pub proof fn law_a_mixin_call_links_its_host_to_each_constant_argument(s: Shape, scope: Seq<Seq<char>>)
    ensures
        match s {
            Shape::Call { name, arguments, .. } => (name@ == "include"@ || name@ == "prepend"@ || name@ == "extend"@)
                && spec_mixin_host(s, spec_enclosing_class(scope)) is Some ==> {
                let links = node_links(s, scope).mixins;
                let modules = arguments@.filter_map(|e: Expr| spec_qualified(e));
                &&& links.len() == modules.len()
                &&& forall|i: int|
                    0 <= i < links.len() ==> (#[trigger] links[i]).1.written == modules[i] && links[i].0.written
                        == spec_mixin_host(s, spec_enclosing_class(scope))->Some_0
                &&& (name@ == "include"@ || name@ == "prepend"@) ==> node_links(s, scope).included == links
            },
            _ => true,
        },
{
    match s {
        Shape::Call { name, arguments, .. } => {
            lemma_named_constants(arguments@);
            reveal_strlit("include");
            reveal_strlit("prepend");
            reveal_strlit("extend");
            reveal_strlit("refine");
            let enclosing = spec_enclosing_class(scope);
            let host = spec_mixin_host(s, enclosing);
            if host is Some && (name@ == "include"@ || name@ == "prepend"@ || name@ == "extend"@) {
                let modules = named_constants(arguments@);
                let hr = RefView { written: host->0, enclosing };
                lemma_refs_to(hr, modules, enclosing);
                assert(spec_mixed_in(s) == modules);
                assert("include"@.len() != "refine"@.len());
                assert("prepend"@.len() != "refine"@.len());
                assert("extend"@[0] != "refine"@[0]);
                assert(name@ != "refine"@);
                if modules.len() > 0 {
                    assert(node_links(s, scope).mixins == refs_to(hr, modules, enclosing));
                } else {
                    assert(node_links(s, scope).mixins.len() == 0);
                }
            }
        },
        _ => {},
    }
}

/// The modules an `include`, `prepend`, `extend` or `refine` call names.
pub open spec fn spec_mixed_in(s: Shape) -> Seq<Seq<char>> {
    match s {
        Shape::Call { name, arguments, .. } => if is_mixin_call(name@) {
            named_constants(arguments@)
        } else {
            Seq::empty()
        },
        _ => Seq::empty(),
    }
}

/// The class a mixin call attaches to: for `refine`, the class it names;
/// otherwise the receiver if it names one, or the enclosing class.
pub open spec fn spec_mixin_host(s: Shape, enclosing: Option<Seq<char>>) -> Option<Seq<char>> {
    match s {
        Shape::Call { name, receiver, arguments } => if name@ == "refine"@ {
            if arguments@.len() > 0 {
                spec_qualified(arguments@[0])
            } else {
                None
            }
        } else {
            match receiver {
                Some(r) => spec_qualified(r),
                None => enclosing,
            }
        },
        _ => None,
    }
}

/// `module_function`, or `extend self`.
pub open spec fn spec_extends_itself(s: Shape) -> bool {
    match s {
        Shape::Call { name, arguments, .. } => name@ == "module_function"@ || (name@ == "extend"@ && exists|k: int|
            0 <= k < arguments@.len() && #[trigger] arguments@[k] is SelfRef),
        _ => false,
    }
}

/// `Alias = Other`: the alias and the class it names, when the value is a
/// constant other than the alias itself.
pub open spec fn spec_constant_alias(s: Shape) -> Option<(Seq<char>, Seq<char>)> {
    match s {
        Shape::ConstantWrite { name, value } => match spec_qualified(value) {
            Some(t) => if name@ != t {
                Some((name@, t))
            } else {
                None
            },
            None => None,
        },
        _ => None,
    }
}

pub open spec fn declares(s: Shape) -> bool {
    s is Class || s is Module
}

/// The scope inside a node.
pub open spec fn inner_scope(s: Shape, scope: Seq<Seq<char>>) -> Seq<Seq<char>> {
    match spec_scope_name(s) {
        Some(e) => scope.push(e),
        None => scope,
    }
}

/// The class a node's own links belong to: the class it declares, or the one
/// it sits in.
pub open spec fn home(s: Shape, scope: Seq<Seq<char>>) -> Option<Seq<char>> {
    if declares(s) {
        spec_enclosing_class(inner_scope(s, scope))
    } else {
        spec_enclosing_class(scope)
    }
}

pub open spec fn refs_to(host: RefView, modules: Seq<Seq<char>>, enclosing: Option<Seq<char>>) -> Seq<(RefView, RefView)>
    decreases modules.len(),
{
    if modules.len() == 0 {
        Seq::empty()
    } else {
        refs_to(host, modules.drop_last(), enclosing).push((host, RefView { written: modules.last(), enclosing }))
    }
}

/// What one node says, read in `scope`.
pub open spec fn node_links(s: Shape, scope: Seq<Seq<char>>) -> CollectedView {
    let enclosing = spec_enclosing_class(scope);
    let here = home(s, scope);
    let declared = if declares(s) && here is Some {
        seq![here->0]
    } else {
        Seq::empty()
    };
    let superclass = match s {
        Shape::Class { superclass: Some(sup), .. } => if here is Some && spec_qualified(sup) is Some {
            seq![(here->0, RefView { written: spec_qualified(sup)->0, enclosing })]
        } else {
            Seq::empty()
        },
        _ => Seq::empty(),
    };
    let aliases = match spec_constant_alias(s) {
        Some((n, t)) => seq![
            (
                match enclosing {
                    Some(outer) => outer + "::"@ + n,
                    None => n,
                },
                RefView { written: t, enclosing },
            ),
        ],
        None => Seq::empty(),
    };
    let self_extended = if spec_extends_itself(s) && here is Some {
        seq![here->0]
    } else {
        Seq::empty()
    };
    let modules = spec_mixed_in(s);
    let host = spec_mixin_host(s, enclosing);
    let refining = s matches Shape::Call { name, .. } && name@ == "refine"@;
    let instance_side = s matches Shape::Call { name, .. } && (name@ == "include"@ || name@ == "prepend"@);
    let linked = modules.len() > 0 && host is Some;
    let host_ref = RefView { written: host->0, enclosing };
    let (mixins, included, refines) = if !linked {
        (Seq::empty(), Seq::empty(), Seq::empty())
    } else if refining {
        match enclosing {
            Some(m) => (
                seq![(host_ref, RefView { written: m, enclosing: None })],
                Seq::empty(),
                seq![(host_ref, RefView { written: m, enclosing: None })],
            ),
            None => (Seq::empty(), Seq::empty(), Seq::empty()),
        }
    } else {
        (
            refs_to(host_ref, modules, enclosing),
            if instance_side {
                refs_to(host_ref, modules, enclosing)
            } else {
                Seq::empty()
            },
            Seq::empty(),
        )
    };
    CollectedView { declared, superclass, mixins, included, refines, self_extended, aliases }
}

/// What a tree says, read depth first from the root, the children of a node
/// taken last to first.
pub open spec fn walk(t: Tree, scope: Seq<Seq<char>>) -> CollectedView
    decreases t,
{
    then(node_links(t.shape, scope), walk_list(t.children@, inner_scope(t.shape, scope)))
}

/// What some sibling trees say, the last first.
pub open spec fn walk_list(ts: Seq<Tree>, scope: Seq<Seq<char>>) -> CollectedView
    decreases ts,
{
    if ts.len() == 0 {
        no_links()
    } else {
        then(walk(ts.last(), scope), walk_list(ts.drop_last(), scope))
    }
}

proof fn lemma_then_assoc(a: CollectedView, b: CollectedView, c: CollectedView)
    ensures
        then(then(a, b), c) == then(a, then(b, c)),
{
    assert(then(then(a, b), c).declared =~= then(a, then(b, c)).declared);
    assert(then(then(a, b), c).superclass =~= then(a, then(b, c)).superclass);
    assert(then(then(a, b), c).mixins =~= then(a, then(b, c)).mixins);
    assert(then(then(a, b), c).included =~= then(a, then(b, c)).included);
    assert(then(then(a, b), c).refines =~= then(a, then(b, c)).refines);
    assert(then(then(a, b), c).self_extended =~= then(a, then(b, c)).self_extended);
    assert(then(then(a, b), c).aliases =~= then(a, then(b, c)).aliases);
}

proof fn lemma_then_none(a: CollectedView)
    ensures
        then(a, no_links()) == a,
{
    assert(then(a, no_links()).declared =~= a.declared);
    assert(then(a, no_links()).superclass =~= a.superclass);
    assert(then(a, no_links()).mixins =~= a.mixins);
    assert(then(a, no_links()).included =~= a.included);
    assert(then(a, no_links()).refines =~= a.refines);
    assert(then(a, no_links()).self_extended =~= a.self_extended);
    assert(then(a, no_links()).aliases =~= a.aliases);
}

fn constants_of(args: &Vec<Expr>) -> (r: Vec<String>)
    ensures
        string_views(r@) == named_constants(args@),
{
    let mut out: Vec<String> = Vec::new();
    let mut k: usize = 0;
    while k < args.len()
        invariant
            k <= args@.len(),
            string_views(out@) == named_constants(args@.take(k as int)),
        decreases args@.len() - k,
    {
        proof {
            assert(args@.take(k + 1).drop_last() =~= args@.take(k as int));
            assert(args@.take(k + 1).last() == args@[k as int]);
        }
        match qualified(&args[k]) {
            Some(c) => {
                let ghost was = string_views(out@);
                out.push(c);
                proof {
                    assert(string_views(out@) =~= was.push(out@[out@.len() - 1]@));
                }
            },
            None => {},
        }
        k += 1;
    }
    proof {
        assert(args@.take(args@.len() as int) =~= args@);
    }
    out
}

fn any_self(args: &Vec<Expr>) -> (r: bool)
    ensures
        r == exists|k: int| 0 <= k < args@.len() && #[trigger] args@[k] is SelfRef,
{
    let mut k: usize = 0;
    while k < args.len()
        invariant
            k <= args@.len(),
            forall|j: int| 0 <= j < k ==> !(#[trigger] args@[j] is SelfRef),
        decreases args@.len() - k,
    {
        if matches!(args[k], Expr::SelfRef) {
            return true;
        }
        k += 1;
    }
    false
}

fn refs_from(host: &Ref, modules: &Vec<String>, enclosing: &Option<String>, out: &mut Vec<(Ref, Ref)>)
    ensures
        ref_views(final(out)@) == ref_views(old(out)@) + refs_to(host.view(), string_views(modules@), opt_view(*enclosing)),
{
    let ghost start = ref_views(out@);
    let ghost mv = string_views(modules@);
    let mut k: usize = 0;
    while k < modules.len()
        invariant
            k <= modules@.len(),
            mv == string_views(modules@),
            ref_views(out@) == start + refs_to(host.view(), mv.take(k as int), opt_view(*enclosing)),
        decreases modules@.len() - k,
    {
        proof {
            assert(mv.take(k + 1).drop_last() =~= mv.take(k as int));
            assert(mv.take(k + 1).last() == mv[k as int]);
        }
        let ghost was = ref_views(out@);
        out.push((host.duplicate(), Ref { written: owned(modules[k].as_str()), enclosing: crate::text::clone_opt(enclosing) }));
        proof {
            assert(ref_views(out@) =~= was.push((host.view(), RefView { written: mv[k as int], enclosing: opt_view(*enclosing) })));
        }
        k += 1;
    }
    proof {
        assert(mv.take(modules@.len() as int) =~= mv);
    }
}

/// The scope inside a node.
fn inside(s: &Shape, scope: &Vec<String>) -> (r: Vec<String>)
    ensures
        string_views(r@) == inner_scope(*s, string_views(scope@)),
{
    let mut inner = crate::text::clone_strings(scope);
    match scope_name_of(s) {
        Some(entry) => {
            let ghost was = string_views(inner@);
            inner.push(entry);
            proof {
                assert(string_views(inner@) =~= was.push(inner@[inner@.len() - 1]@));
            }
        },
        None => {},
    }
    inner
}

/// Add what one node says, read in `scope`.
fn node_links_into(s: &Shape, scope: &Vec<String>, out: &mut Collected)
    ensures
        final(out).view() == then(old(out).view(), node_links(*s, string_views(scope@))),
{
    let ghost sv = string_views(scope@);
    let ghost was = out.view();
    let enclosing = enclosing_class(scope);
    let inner = inside(s, scope);
    let is_decl = matches!(s, Shape::Class { .. }) || matches!(s, Shape::Module { .. });
    let here = if is_decl {
        enclosing_class(&inner)
    } else {
        crate::text::clone_opt(&enclosing)
    };
    assert(opt_view(here) == home(*s, sv));
    let mut add = Collected::new();
    if is_decl {
        match &here {
            Some(name) => {
                add.declared.push(owned(name.as_str()));
                match s {
                    Shape::Class { superclass: Some(sup), .. } => match qualified(sup) {
                        Some(written) => {
                            add.superclass.push(
                                (owned(name.as_str()), Ref { written, enclosing: crate::text::clone_opt(&enclosing) }),
                            );
                        },
                        None => {},
                    },
                    _ => {},
                }
            },
            None => {},
        }
    }
    match s {
        Shape::ConstantWrite { name, value } => match qualified(value) {
            Some(target) => {
                if !str_eq(name.as_str(), target.as_str()) {
                    let alias = match &enclosing {
                        Some(outer) => cat3(outer.as_str(), "::", name.as_str()),
                        None => owned(name.as_str()),
                    };
                    add.aliases.push((alias, Ref { written: target, enclosing: crate::text::clone_opt(&enclosing) }));
                }
            },
            None => {},
        },
        _ => {},
    }
    let extends = match s {
        Shape::Call { name, arguments, .. } => str_eq(name.as_str(), "module_function") || (str_eq(
            name.as_str(),
            "extend",
        ) && any_self(arguments)),
        _ => false,
    };
    if extends {
        match &here {
            Some(host) => {
                add.self_extended.push(owned(host.as_str()));
            },
            None => {},
        }
    }
    match s {
        Shape::Call { name, receiver, arguments } => {
            let n = name.as_str();
            let refining = str_eq(n, "refine");
            let mixing = refining || str_eq(n, "include") || str_eq(n, "prepend") || str_eq(n, "extend");
            let modules = if mixing {
                constants_of(arguments)
            } else {
                Vec::new()
            };
            let host = if refining {
                if arguments.len() > 0 {
                    qualified(&arguments[0])
                } else {
                    None
                }
            } else {
                match receiver {
                    Some(r) => qualified(r),
                    None => crate::text::clone_opt(&enclosing),
                }
            };
            if modules.len() > 0 {
                match host {
                    Some(h) => {
                        let host_ref = Ref { written: h, enclosing: crate::text::clone_opt(&enclosing) };
                        if refining {
                            match &enclosing {
                                Some(m) => {
                                    add.refines.push((host_ref.duplicate(), Ref { written: owned(m.as_str()), enclosing: None }));
                                    add.mixins.push((host_ref, Ref { written: owned(m.as_str()), enclosing: None }));
                                },
                                None => {},
                            }
                        } else {
                            if str_eq(n, "include") || str_eq(n, "prepend") {
                                refs_from(&host_ref, &modules, &enclosing, &mut add.included);
                            }
                            refs_from(&host_ref, &modules, &enclosing, &mut add.mixins);
                        }
                    },
                    None => {},
                }
            }
        },
        _ => {},
    }
    proof {
        let nl = node_links(*s, sv);
        assert(add.view().declared =~= nl.declared);
        assert(add.view().superclass =~= nl.superclass);
        assert(add.view().aliases =~= nl.aliases);
        assert(add.view().self_extended =~= nl.self_extended);
        assert(add.view().mixins =~= nl.mixins);
        assert(add.view().included =~= nl.included);
        assert(add.view().refines =~= nl.refines);
    }
    out.absorb(add);
}

fn visit(t: &Tree, scope: &Vec<String>, out: &mut Collected)
    ensures
        final(out).view() == then(old(out).view(), walk(*t, string_views(scope@))),
    decreases t,
{
    let ghost base = out.view();
    let ghost sv = string_views(scope@);
    node_links_into(&t.shape, scope, out);
    let inner = inside(&t.shape, scope);
    let ghost iv = string_views(inner@);
    let ghost kids = t.children@;
    let ghost start = out.view();
    let mut k: usize = t.children.len();
    proof {
        assert(kids.take(k as int) =~= kids);
    }
    while k > 0
        invariant
            k <= kids.len(),
            kids == t.children@,
            iv == string_views(inner@),
            then(out.view(), walk_list(kids.take(k as int), iv)) == then(start, walk_list(kids, iv)),
        decreases k,
    {
        let ghost now = out.view();
        proof {
            assert(kids.take(k as int).drop_last() =~= kids.take(k - 1));
            assert(kids.take(k as int).last() == kids[k - 1]);
            lemma_then_assoc(now, walk(kids[k - 1], iv), walk_list(kids.take(k - 1), iv));
        }
        visit(&t.children[k - 1], &inner, out);
        k -= 1;
    }
    proof {
        assert(kids.take(0) =~= Seq::<Tree>::empty());
        lemma_then_none(out.view());
        lemma_then_assoc(base, node_links(t.shape, sv), walk_list(kids, iv));
    }
}

/// Collect what a file says about its classes. The walk carries the scope
/// stack a match inside would see, so a class is named here exactly as a
/// match inside it names it.
pub fn links(root: &Tree) -> (r: Collected)
    ensures
        r.view() == walk(*root, Seq::empty()),
{
    let mut out = Collected::new();
    let scope: Vec<String> = Vec::new();
    proof {
        assert(string_views(scope@) =~= Seq::<Seq<char>>::empty());
    }
    visit(root, &scope, &mut out);
    proof {
        let w = walk(*root, Seq::empty());
        assert(then(no_links(), w).declared =~= w.declared);
        assert(then(no_links(), w).superclass =~= w.superclass);
        assert(then(no_links(), w).mixins =~= w.mixins);
        assert(then(no_links(), w).included =~= w.included);
        assert(then(no_links(), w).refines =~= w.refines);
        assert(then(no_links(), w).self_extended =~= w.self_extended);
        assert(then(no_links(), w).aliases =~= w.aliases);
    }
    out
}

/// Whether any of the names occurs in a file's bytes.
pub open spec fn names_any(src: Seq<u8>, names: Seq<Seq<char>>) -> bool {
    exists|k: int, at: int| 0 <= k < names.len() && #[trigger] occurs_at(src, vstd::utf8::encode_utf8(names[k]), at)
}

/// The files not yet read that name a class already known to matter, in
/// order.
pub open spec fn wanted(done: Seq<bool>, sources: Seq<Seq<u8>>, known: Seq<Seq<char>>, n: int) -> Seq<usize>
    decreases n,
{
    if n <= 0 {
        Seq::empty()
    } else if !done[n - 1] && names_any(sources[n - 1], known) {
        wanted(done, sources, known, n - 1).push((n - 1) as usize)
    } else {
        wanted(done, sources, known, n - 1)
    }
}

/// The known set after following links: where the first name of a link is
/// known, the last segment of the second becomes known too.
pub open spec fn grow(known: Seq<Seq<char>>, links: Seq<(Seq<char>, Seq<char>)>) -> Seq<Seq<char>>
    decreases links.len(),
{
    if links.len() == 0 {
        known
    } else if grow(known, links.drop_last()).contains(spec_last_segment(links.last().0)) && !grow(
        known,
        links.drop_last(),
    ).contains(spec_last_segment(links.last().1)) {
        grow(known, links.drop_last()).push(spec_last_segment(links.last().1))
    } else {
        grow(known, links.drop_last())
    }
}

/// Superclass links, from parent to child.
pub open spec fn up_links(s: Seq<(Seq<char>, RefView)>) -> Seq<(Seq<char>, Seq<char>)> {
    s.map_values(|p: (Seq<char>, RefView)| (p.1.written, p.0))
}

/// Mixin links, from host to module.
pub open spec fn mixin_links(s: Seq<(RefView, RefView)>) -> Seq<(Seq<char>, Seq<char>)> {
    s.map_values(|p: (RefView, RefView)| (p.0.written, p.1.written))
}

/// The search for the part of the hierarchy reachable from some classes.
pub struct ReachView {
    pub known: Seq<Seq<char>>,
    pub done: Seq<bool>,
    pub all: CollectedView,
    pub constants: Seq<Seq<char>>,
    pub parsed: nat,
}

/// One file's links taken in.
pub open spec fn take_one(r: ReachView, i: usize, c: CollectedView) -> ReachView {
    ReachView {
        known: grow(grow(r.known, up_links(c.superclass)), mixin_links(c.mixins)),
        done: if i < r.done.len() {
            r.done.update(i as int, true)
        } else {
            r.done
        },
        all: then(r.all, c),
        constants: r.constants + spec_constants(c),
        parsed: r.parsed,
    }
}

/// A round's files taken in, in order.
pub open spec fn take_round(r: ReachView, round: Seq<(usize, CollectedView)>) -> ReachView
    decreases round.len(),
{
    if round.len() == 0 {
        r
    } else {
        take_one(take_round(r, round.drop_last()), round.last().0, round.last().1)
    }
}

pub open spec fn round_views(v: Seq<(usize, Collected)>) -> Seq<(usize, CollectedView)> {
    v.map_values(|p: (usize, Collected)| (p.0, p.1.view()))
}

pub open spec fn byte_views(v: Seq<Vec<u8>>) -> Seq<Seq<u8>> {
    v.map_values(|b: Vec<u8>| b@)
}

/// Build only the part of the hierarchy reachable from some classes.
///
/// A rename names one class, and only what contributes to it matters. Rather
/// than read every file, read those naming a class already known to be in the
/// tree, and repeat until nothing new is learned: `Gold < Premium < Account`
/// is reached in two rounds. A module is known once something known mixes it
/// in, which reaches every other class mixing in the same module. The search
/// set holds last segments, because that is what a file's bytes carry.
pub struct Reach {
    known: Vec<String>,
    done: Vec<bool>,
    all: Collected,
    constants: Vec<String>,
    parsed: usize,
}

impl Reach {
    pub closed spec fn view(&self) -> ReachView {
        ReachView {
            known: string_views(self.known@),
            done: self.done@,
            all: self.all.view(),
            constants: string_views(self.constants@),
            parsed: self.parsed as nat,
        }
    }

    /// A search from `roots` over `files` files, none read yet.
    pub fn new(roots: &Vec<String>, files: usize) -> (r: Reach)
        ensures
            r.view().known == dedup(string_views(roots@).map_values(|n: Seq<char>| spec_last_segment(n))),
            r.view().done == Seq::new(files as nat, |i: int| false),
            r.view().all == no_links(),
            r.view().constants == Seq::<Seq<char>>::empty(),
            r.view().parsed == 0,
    {
        let ghost segs = string_views(roots@).map_values(|n: Seq<char>| spec_last_segment(n));
        let mut names: Vec<String> = Vec::new();
        let mut k: usize = 0;
        while k < roots.len()
            invariant
                k <= roots@.len(),
                segs == string_views(roots@).map_values(|n: Seq<char>| spec_last_segment(n)),
                string_views(names@) == dedup(segs.take(k as int)),
            decreases roots@.len() - k,
        {
            proof {
                assert(segs.take(k + 1).drop_last() =~= segs.take(k as int));
                assert(segs.take(k + 1).last() == spec_last_segment(roots@[k as int]@));
            }
            let seg = last_segment(roots[k].as_str());
            if !known(&names, seg) {
                let ghost was = string_views(names@);
                names.push(owned(seg));
                proof {
                    assert(string_views(names@) =~= was.push(seg@));
                }
            }
            k += 1;
        }
        proof {
            assert(segs.take(roots@.len() as int) =~= segs);
        }
        let mut done: Vec<bool> = Vec::new();
        let mut j: usize = 0;
        while j < files
            invariant
                j <= files,
                done@ == Seq::new(j as nat, |i: int| false),
            decreases files - j,
        {
            done.push(false);
            proof {
                assert(done@ =~= Seq::new((j + 1) as nat, |i: int| false));
            }
            j += 1;
        }
        let r = Reach { known: names, done, all: Collected::new(), constants: Vec::new(), parsed: 0 };
        assert(r.view().constants =~= Seq::<Seq<char>>::empty());
        r
    }

    /// The files to read this round: not read yet, and naming a known class.
    pub fn candidates(&self, sources: &Vec<Vec<u8>>) -> (r: Vec<usize>)
        requires
            sources@.len() == self.view().done.len(),
        ensures
            r@ == wanted(self.view().done, byte_views(sources@), self.view().known, sources@.len() as int),
    {
        let ghost sv = byte_views(sources@);
        let mut out: Vec<usize> = Vec::new();
        let mut i: usize = 0;
        while i < sources.len()
            invariant
                i <= sources@.len(),
                sources@.len() == self.done@.len(),
                sv == byte_views(sources@),
                out@ == wanted(self.view().done, sv, self.view().known, i as int),
            decreases sources@.len() - i,
        {
            if !self.done[i] && self.names_any_in(sources[i].as_slice()) {
                out.push(i);
            }
            i += 1;
        }
        out
    }

    fn names_any_in(&self, src: &[u8]) -> (r: bool)
        ensures
            r == names_any(src@, self.view().known),
    {
        let ghost kv = self.view().known;
        let mut k: usize = 0;
        while k < self.known.len()
            invariant
                k <= self.known@.len(),
                kv == self.view().known,
                forall|j: int, at: int| 0 <= j < k ==> !#[trigger] occurs_at(src@, vstd::utf8::encode_utf8(kv[j]), at),
            decreases self.known@.len() - k,
        {
            match memmem_find(src, self.known[k].as_str().as_bytes()) {
                Some(at) => {
                    assert(occurs_at(src@, vstd::utf8::encode_utf8(kv[k as int]), at as int));
                    return true;
                },
                None => {},
            }
            k += 1;
        }
        false
    }

    /// Take in what one round read, in order; whether the known set grew.
    pub fn absorb(&mut self, round: Vec<(usize, Collected)>) -> (grew: bool)
        requires
            old(self).view().parsed + round@.len() <= usize::MAX,
        ensures
            final(self).view() == (ReachView {
                parsed: old(self).view().parsed + round@.len(),
                ..take_round(old(self).view(), round_views(round@))
            }),
            grew == (final(self).view().known.len() > old(self).view().known.len()),
    {
        let ghost start = self.view();
        let ghost rv = round_views(round@);
        let n = round.len();
        let before = self.known.len();
        let mut rest = round;
        let mut k: usize = 0;
        assert(rv.len() == rest.len());
        while rest.len() > 0
            invariant
                k <= rv.len(),
                rv.len() <= usize::MAX,
                rest@.len() == rv.len() - k,
                round_views(rest@) == rv.skip(k as int),
                self.view() == (ReachView { parsed: start.parsed, ..take_round(start, rv.take(k as int)) }),
                self.view().known.len() >= start.known.len(),
            decreases rest@.len(),
        {
            proof {
                assert(rv.take(k + 1).drop_last() =~= rv.take(k as int));
            }
            let ghost old_rest = rest@;
            let (i, found) = rest.remove(0);
            proof {
                assert(round_views(old_rest)[0] == (i, found.view()));
                assert(rv.skip(k as int)[0] == rv[k as int]);
                assert(round_views(rest@) =~= round_views(old_rest).skip(1));
                assert(rv.skip(k as int).skip(1) =~= rv.skip(k + 1));
                assert(rv.take(k + 1).last() == (i, found.view()));
            }
            self.take(i, found);
            k += 1;
        }
        proof {
            assert(rv.take(rv.len() as int) =~= rv);
        }
        self.parsed = self.parsed + n;
        self.known.len() > before
    }

    /// One file's links taken in.
    fn take(&mut self, i: usize, found: Collected)
        ensures
            final(self).view() == (ReachView { parsed: old(self).view().parsed, ..take_one(old(self).view(), i, found.view()) }),
            final(self).view().known.len() >= old(self).view().known.len(),
    {
        let ghost was = self.view();
        let ghost fv = found.view();
        if i < self.done.len() {
            self.done.set(i, true);
        }
        let names = found.constants();
        let ghost cv = string_views(self.constants@);
        let ghost d1 = self.done@;
        let mut k: usize = 0;
        while k < names.len()
            invariant
                k <= names@.len(),
                self.done@ == d1,
                self.known@ == old(self).known@,
                self.all.view() == was.all,
                self.parsed == was.parsed,
                string_views(self.constants@) == cv + string_views(names@).take(k as int),
            decreases names@.len() - k,
        {
            let ghost before = string_views(self.constants@);
            self.constants.push(owned(names[k].as_str()));
            proof {
                assert(string_views(self.constants@) =~= before.push(names@[k as int]@));
                assert(string_views(names@).take(k + 1) =~= string_views(names@).take(k as int).push(names@[k as int]@));
                assert(string_views(self.constants@) =~= cv + string_views(names@).take(k + 1));
            }
            k += 1;
        }
        proof {
            assert(string_views(names@).take(names@.len() as int) =~= string_views(names@));
        }
        let ghost k0 = string_views(self.known@);
        let ghost c1 = string_views(self.constants@);
        let ghost ups = up_links(fv.superclass);
        let mut j: usize = 0;
        while j < found.superclass.len()
            invariant
                j <= found.superclass@.len(),
                self.done@ == d1,
                string_views(self.constants@) == c1,
                self.all.view() == was.all,
                self.parsed == was.parsed,
                fv == found.view(),
                ups == up_links(fv.superclass),
                string_views(self.known@) == grow(k0, ups.take(j as int)),
                string_views(self.known@).len() >= k0.len(),
            decreases found.superclass@.len() - j,
        {
            proof {
                assert(ups.take(j + 1).drop_last() =~= ups.take(j as int));
                assert(ups.take(j + 1).last() == (found.superclass@[j as int].1.written@, found.superclass@[j as int].0@));
            }
            self.link(found.superclass[j].1.written.as_str(), found.superclass[j].0.as_str());
            j += 1;
        }
        proof {
            assert(ups.take(found.superclass@.len() as int) =~= ups);
        }
        let ghost k1 = string_views(self.known@);
        let ghost mls = mixin_links(fv.mixins);
        let mut m: usize = 0;
        while m < found.mixins.len()
            invariant
                m <= found.mixins@.len(),
                self.done@ == d1,
                string_views(self.constants@) == c1,
                self.all.view() == was.all,
                self.parsed == was.parsed,
                fv == found.view(),
                mls == mixin_links(fv.mixins),
                string_views(self.known@) == grow(k1, mls.take(m as int)),
                string_views(self.known@).len() >= k0.len(),
                k1.len() >= k0.len(),
            decreases found.mixins@.len() - m,
        {
            proof {
                assert(mls.take(m + 1).drop_last() =~= mls.take(m as int));
                assert(mls.take(m + 1).last() == (found.mixins@[m as int].0.written@, found.mixins@[m as int].1.written@));
            }
            self.link(found.mixins[m].0.written.as_str(), found.mixins[m].1.written.as_str());
            m += 1;
        }
        proof {
            assert(mls.take(found.mixins@.len() as int) =~= mls);
        }
        self.all.absorb(found);
    }

    /// Where `from` is known, make the last segment of `to` known.
    fn link(&mut self, from: &str, to: &str)
        ensures
            ({
                let k = string_views(old(self).known@);
                string_views(final(self).known@) == if k.contains(spec_last_segment(from@)) && !k.contains(
                    spec_last_segment(to@),
                ) {
                    k.push(spec_last_segment(to@))
                } else {
                    k
                }
            }),
            final(self).done == old(self).done,
            final(self).all == old(self).all,
            final(self).constants == old(self).constants,
            final(self).parsed == old(self).parsed,
    {
        let f = last_segment(from);
        let t = last_segment(to);
        if known(&self.known, f) && !known(&self.known, t) {
            let ghost was = string_views(self.known@);
            self.known.push(owned(t));
            proof {
                assert(string_views(self.known@) =~= was.push(t@));
            }
        }
    }

    /// How many files were read, and the hierarchy what they say describes.
    pub fn finish(self) -> (r: (Hierarchy, usize))
        ensures
            r.0@ == spec_from_collected(self.view().all, self.view().constants),
            r.1 == self.view().parsed,
    {
        let parsed = self.parsed;
        (Hierarchy::from_collected(self.all, self.constants), parsed)
    }
}

/// How many files are still unread.
pub open spec fn count_undone(done: Seq<bool>) -> nat
    decreases done.len(),
{
    if done.len() == 0 {
        0
    } else {
        count_undone(done.drop_last()) + if done.last() {
            0nat
        } else {
            1nat
        }
    }
}

/// What reading the wanted files gives: each one that parsed, with what it
/// says, in order.
pub open spec fn round_of(w: Seq<usize>, trees: Seq<Option<Tree>>) -> Seq<(usize, CollectedView)>
    decreases w.len(),
{
    if w.len() == 0 {
        Seq::empty()
    } else {
        let rest = round_of(w.drop_last(), trees);
        match trees[w.last() as int] {
            Some(t) => rest.push((w.last(), walk(t, Seq::empty()))),
            None => rest,
        }
    }
}

/// A round of distinct unread files, each below `bound`.
pub open spec fn fresh(done: Seq<bool>, round: Seq<(usize, CollectedView)>, bound: int) -> bool {
    &&& forall|k: int| 0 <= k < round.len() ==> #[trigger] round[k].0 < done.len() && !done[round[k].0 as int] && round[k].0 < bound
    &&& forall|k: int, l: int| 0 <= k < l < round.len() ==> #[trigger] round[k].0 < #[trigger] round[l].0
}

/// The search run to its end: read the wanted files that parse, take in what
/// they say, and go on while the known set grows.
pub open spec fn reach_fix(r: ReachView, sources: Seq<Seq<u8>>, trees: Seq<Option<Tree>>) -> ReachView
    decreases count_undone(r.done),
    via reach_fix_decreases
{
    let round = round_of(wanted(r.done, sources, r.known, sources.len() as int), trees);
    if round.len() == 0 || r.done.len() != sources.len() || sources.len() > usize::MAX {
        r
    } else {
        let next = ReachView { parsed: r.parsed + round.len(), ..take_round(r, round) };
        if next.known.len() > r.known.len() {
            reach_fix(next, sources, trees)
        } else {
            next
        }
    }
}

/// Where the search starts: the last segments of the roots, nothing read.
pub open spec fn reach_start(roots: Seq<Seq<char>>, files: nat) -> ReachView {
    ReachView {
        known: dedup(roots.map_values(|n: Seq<char>| spec_last_segment(n))),
        done: Seq::new(files, |i: int| false),
        all: no_links(),
        constants: Seq::empty(),
        parsed: 0,
    }
}

proof fn lemma_wanted_fresh(done: Seq<bool>, sources: Seq<Seq<u8>>, known: Seq<Seq<char>>, n: int)
    requires
        0 <= n <= done.len(),
        n <= usize::MAX,
    ensures
        forall|k: int| 0 <= k < wanted(done, sources, known, n).len() ==> #[trigger] wanted(done, sources, known, n)[k] < n
            && !done[wanted(done, sources, known, n)[k] as int],
        forall|k: int, l: int|
            0 <= k < l < wanted(done, sources, known, n).len() ==> #[trigger] wanted(done, sources, known, n)[k]
                < #[trigger] wanted(done, sources, known, n)[l],
    decreases n,
{
    if n > 0 {
        lemma_wanted_fresh(done, sources, known, n - 1);
        let prev = wanted(done, sources, known, n - 1);
        let now = wanted(done, sources, known, n);
        if !done[n - 1] && names_any(sources[n - 1], known) {
            assert(now == prev.push((n - 1) as usize));
            assert forall|k: int| 0 <= k < now.len() implies #[trigger] now[k] < n && !done[now[k] as int] by {
                if k < prev.len() {
                    assert(now[k] == prev[k]);
                }
            }
            assert forall|k: int, l: int| 0 <= k < l < now.len() implies #[trigger] now[k] < #[trigger] now[l] by {
                assert(now[k] == prev[k]);
                if l < prev.len() {
                    assert(now[l] == prev[l]);
                }
            }
        } else {
            assert(now == prev);
        }
    }
}

proof fn lemma_count_bound(done: Seq<bool>)
    ensures
        count_undone(done) <= done.len(),
    decreases done.len(),
{
    if done.len() > 0 {
        lemma_count_bound(done.drop_last());
    }
}

proof fn lemma_round_fresh(w: Seq<usize>, trees: Seq<Option<Tree>>, done: Seq<bool>, bound: int)
    requires
        forall|k: int| 0 <= k < w.len() ==> #[trigger] w[k] < done.len() && !done[w[k] as int] && w[k] < bound,
        forall|k: int, l: int| 0 <= k < l < w.len() ==> #[trigger] w[k] < #[trigger] w[l],
    ensures
        fresh(done, round_of(w, trees), bound),
    decreases w.len(),
{
    if w.len() > 0 {
        let last = w.last();
        assert forall|k: int, l: int| 0 <= k < l < w.drop_last().len() implies #[trigger] w.drop_last()[k]
            < #[trigger] w.drop_last()[l] by {
            assert(w.drop_last()[k] == w[k] && w.drop_last()[l] == w[l]);
        }
        assert forall|k: int| 0 <= k < w.drop_last().len() implies #[trigger] w.drop_last()[k] < done.len()
            && !done[w.drop_last()[k] as int] && w.drop_last()[k] < last by {
            assert(w.drop_last()[k] == w[k]);
            assert(w[k] < w[w.len() - 1]);
        }
        lemma_round_fresh(w.drop_last(), trees, done, last as int);
    }
}

proof fn lemma_count_set(done: Seq<bool>, i: int)
    requires
        0 <= i < done.len(),
        !done[i],
    ensures
        count_undone(done.update(i, true)) + 1 == count_undone(done),
    decreases done.len(),
{
    if i < done.len() - 1 {
        lemma_count_set(done.drop_last(), i);
        assert(done.update(i, true).drop_last() =~= done.drop_last().update(i, true));
    } else {
        assert(done.update(i, true).drop_last() =~= done.drop_last());
    }
}

proof fn lemma_take_round_count(r: ReachView, round: Seq<(usize, CollectedView)>, bound: int)
    requires
        fresh(r.done, round, bound),
    ensures
        take_round(r, round).done.len() == r.done.len(),
        count_undone(take_round(r, round).done) + round.len() == count_undone(r.done),
        forall|j: int| 0 <= j < r.done.len() && (round.len() == 0 || j > round.last().0) ==> #[trigger] take_round(r, round).done[j]
            == r.done[j],
    decreases round.len(),
{
    if round.len() > 0 {
        let dl = round.drop_last();
        let last = round.last();
        assert forall|k: int| 0 <= k < dl.len() implies #[trigger] dl[k].0 < r.done.len() && !r.done[dl[k].0 as int]
            && dl[k].0 < last.0 by {
            assert(dl[k] == round[k]);
            assert(round[k].0 < round[round.len() - 1].0);
        }
        assert forall|k: int, l: int| 0 <= k < l < dl.len() implies #[trigger] dl[k].0 < #[trigger] dl[l].0 by {
            assert(dl[k] == round[k] && dl[l] == round[l]);
        }
        lemma_take_round_count(r, dl, last.0 as int);
        let before = take_round(r, dl);
        assert(last == round[round.len() - 1]);
        assert(!before.done[last.0 as int]);
        lemma_count_set(before.done, last.0 as int);
    }
}

#[via_fn]
proof fn reach_fix_decreases(r: ReachView, sources: Seq<Seq<u8>>, trees: Seq<Option<Tree>>) {
    let w = wanted(r.done, sources, r.known, sources.len() as int);
    let round = round_of(w, trees);
    if round.len() != 0 && r.done.len() == sources.len() && sources.len() <= usize::MAX {
        lemma_wanted_fresh(r.done, sources, r.known, sources.len() as int);
        lemma_round_fresh(w, trees, r.done, sources.len() as int);
        lemma_take_round_count(r, round, sources.len() as int);
    }
}

/// The part of the class hierarchy reachable from `roots`, and how many files
/// were read to find it: `trees` holds each source's tree, where it parses.
pub fn reach(roots: &Vec<String>, sources: &Vec<Vec<u8>>, trees: &Vec<Option<Tree>>) -> (r: (Hierarchy, usize))
    requires
        sources@.len() == trees@.len(),
    ensures
        ({
            let fin = reach_fix(reach_start(string_views(roots@), sources@.len()), byte_views(sources@), trees@);
            r.0@ == spec_from_collected(fin.all, fin.constants) && r.1 == fin.parsed
        }),
{
    let ghost sv = byte_views(sources@);
    let ghost goal = reach_fix(reach_start(string_views(roots@), sources@.len()), sv, trees@);
    let mut reach = Reach::new(roots, sources.len());
    proof {
        assert(reach.view() == reach_start(string_views(roots@), sources@.len()));
        lemma_count_bound(reach.view().done);
    }
    let ghost n = sources@.len();
    loop
        invariant_except_break
            reach_fix(reach.view(), sv, trees@) == goal,
        invariant
            sources@.len() == trees@.len() == n,
            n <= usize::MAX,
            sv == byte_views(sources@),
            reach.view().done.len() == n,
            reach.view().parsed + count_undone(reach.view().done) <= n,
        ensures
            reach.view() == goal,
        decreases count_undone(reach.view().done),
    {
        let wanted = reach.candidates(sources);
        let ghost w = wanted@;
        let ghost before = reach.view();
        let mut round: Vec<(usize, Collected)> = Vec::new();
        let mut k: usize = 0;
        proof {
            lemma_wanted_fresh(before.done, sv, before.known, n as int);
        }
        while k < wanted.len()
            invariant
                k <= wanted@.len(),
                w == wanted@,
                trees@.len() == n,
                forall|j: int| 0 <= j < w.len() ==> #[trigger] w[j] < n,
                round_views(round@) == round_of(w.take(k as int), trees@),
            decreases wanted@.len() - k,
        {
            proof {
                assert(w.take(k + 1).drop_last() =~= w.take(k as int));
                assert(w.take(k + 1).last() == w[k as int]);
            }
            let i = wanted[k];
            match &trees[i] {
                Some(t) => {
                    let found = links(t);
                    let ghost was = round_views(round@);
                    round.push((i, found));
                    proof {
                        assert(round_views(round@) =~= was.push((i, found.view())));
                    }
                },
                None => {},
            }
            k += 1;
        }
        proof {
            assert(w.take(w.len() as int) =~= w);
            lemma_round_fresh(w, trees@, before.done, n as int);
        }
        if round.len() == 0 {
            break;
        }
        proof {
            lemma_take_round_count(before, round_views(round@), n as int);
        }
        let grew = reach.absorb(round);
        if !grew {
            break;
        }
    }
    reach.finish()
}

impl View for Hierarchy {
    type V = HierarchyView;

    closed spec fn view(&self) -> HierarchyView {
        Hierarchy::view(self)
    }
}

} // verus!
