use rwr::hierarchy::{last_segment, links, reach, Collected, Hierarchy, Reach, Ref};
use rwr::tree::{Expr, Shape, Tree};

fn r(written: &str, enclosing: Option<&str>) -> Ref {
    Ref {
        written: written.to_string(),
        enclosing: enclosing.map(str::to_string),
    }
}

fn declared(names: &[&str]) -> Collected {
    let mut c = Collected::new();
    c.declared = names.iter().map(|n| n.to_string()).collect();
    c
}

fn build(c: Collected) -> Hierarchy {
    let constants = c.constants();
    Hierarchy::from_collected(c, constants)
}

#[test]
fn the_last_segment_follows_the_last_separator() {
    assert_eq!(last_segment("Billing::Account"), "Account");
    assert_eq!(last_segment("Account"), "Account");
    assert_eq!(last_segment("A::B::C"), "C");
    assert_eq!(last_segment("Ünïcode::Näme"), "Näme");
}

#[test]
fn a_module_that_extends_itself_is_recorded() {
    let mut c = declared(&["Util"]);
    c.self_extended = vec!["Util".to_string()];
    assert!(build(c).extends_itself("Util"));
}

#[test]
fn extending_another_module_is_not_extending_itself() {
    let mut c = declared(&["Util"]);
    c.mixins = vec![(r("Util", Some("Util")), r("Other", Some("Util")))];
    assert!(!build(c).extends_itself("Util"));
    assert!(!build(declared(&["Util"])).extends_itself("Util"));
}

#[test]
fn a_constant_alias_resolves_to_the_class_it_names() {
    let mut c = declared(&["Account"]);
    c.aliases = vec![("Alias".to_string(), r("Account", None))];
    let h = build(c);
    assert_eq!(h.canonical("Alias"), "Account");
    assert_eq!(h.canonical("Account"), "Account");
    assert_eq!(h.canonical("Unknown"), "Unknown");
}

#[test]
fn alias_chains_resolve_and_cycles_terminate() {
    let mut chain = declared(&["C"]);
    chain.aliases = vec![
        ("A".to_string(), r("B", None)),
        ("B".to_string(), r("C", None)),
    ];
    assert_eq!(build(chain).canonical("A"), "C");

    let mut cycle = Collected::new();
    cycle.aliases = vec![
        ("A".to_string(), r("B", None)),
        ("B".to_string(), r("A", None)),
    ];
    let stop = build(cycle).canonical("A");
    assert!(stop == "A" || stop == "B", "{stop}");
}

#[test]
fn only_a_constant_valued_assignment_is_an_alias() {
    let mut c = Collected::new();
    c.aliases = vec![("Self".to_string(), r("Self", None))];
    let h = build(c);
    assert_eq!(h.canonical("LIMIT"), "LIMIT");
    assert_eq!(h.canonical("Klass"), "Klass");
    assert_eq!(h.canonical("Self"), "Self");
}

#[test]
fn a_class_descends_from_itself() {
    let h = build(declared(&["A"]));
    assert!(h.descends_from("A", "A"));
}

#[test]
fn descent_is_transitive() {
    let mut c = declared(&["A", "B", "C"]);
    c.superclass = vec![
        ("B".to_string(), r("A", None)),
        ("C".to_string(), r("B", None)),
    ];
    let h = build(c);
    assert!(h.descends_from("C", "A"));
    assert!(h.descends_from("B", "A"));
    assert!(!h.descends_from("A", "C"));
}

#[test]
fn an_unqualified_name_reaches_the_only_class_that_ends_with_it() {
    // class Premium < Billing::Account; end
    let mut c = declared(&["Premium"]);
    c.superclass = vec![("Premium".to_string(), r("Billing::Account", None))];
    let h = build(c);
    assert!(h.descends_from("Premium", "Account"));
    assert!(h.descends_from("Premium", "Billing::Account"));

    // module Billing\n  class Account; end\nend\nclass Premium < Billing::Account; end
    let billing_account = Expr::Path(Some(Box::new(read("Billing"))), "Account".to_string());
    let tree = program(vec![
        module("Billing", vec![class("Account", None, vec![])]),
        class("Premium", Some(billing_account), vec![]),
    ]);
    let declared = from_tree(&tree);
    assert!(declared.descends_from("Premium", "Account"));
}

#[test]
fn a_top_level_class_does_not_absorb_its_namespaced_namesake() {
    let mut c = declared(&["Account", "Billing", "Billing::Account", "Premium"]);
    c.superclass = vec![("Premium".to_string(), r("Billing::Account", None))];
    let h = build(c);
    assert!(h.descends_from("Premium", "Billing::Account"));
    assert!(!h.descends_from("Premium", "Account"));
    assert!(!h.same_class("Account", "Billing::Account"));
}

#[test]
fn a_qualified_name_never_widens_to_a_sibling_namespace() {
    let h = build(declared(&["Billing", "Billing::Account"]));
    assert_eq!(h.canonical("Sales::Account"), "Sales::Account");
    assert!(!h.same_class("Sales::Account", "Billing::Account"));
    assert_eq!(h.canonical("Account"), "Billing::Account");
}

#[test]
fn a_reference_resolves_against_its_enclosing_module_first() {
    let mut c = declared(&["Base", "Billing", "Billing::Base", "Billing::Account"]);
    c.superclass = vec![("Billing::Account".to_string(), r("Base", Some("Billing")))];
    let h = build(c);
    assert!(h.descends_from("Billing::Account", "Billing::Base"));
    assert!(!h.descends_from("Billing::Account", "Base"));
}

#[test]
fn a_constant_alias_keeps_the_namespace_of_what_it_names() {
    let mut c = declared(&["Account", "Billing", "Billing::Account"]);
    c.aliases = vec![("Alias".to_string(), r("Billing::Account", None))];
    let h = build(c);
    assert_eq!(h.canonical("Alias"), "Billing::Account");
    assert!(!h.same_class("Alias", "Account"));
}

#[test]
fn a_namespaced_mixin_is_not_its_top_level_namesake() {
    let mut c = declared(&["Helpers", "Billing", "Billing::Helpers", "Account"]);
    let link = (r("Account", Some("Account")), r("Billing::Helpers", Some("Account")));
    c.mixins = vec![(link.0.duplicate(), link.1.duplicate())];
    c.included = vec![link];
    let h = build(c);
    assert!(h.contributes_to("Billing::Helpers", "Account"));
    assert!(!h.contributes_to("Helpers", "Account"));
}

#[test]
fn a_written_constant_is_read_where_it_was_written() {
    let h = build(declared(&[
        "Account",
        "Helpers",
        "Helpers::Numeric",
        "Billing",
        "Billing::Account",
        "Billing::Helpers",
        "Billing::Helpers::Numeric",
    ]));
    assert_eq!(h.written_at("Account", Some("Billing::Invoice")), "Billing::Account");
    assert_eq!(h.written_at("Account", None), "Account");
    assert_eq!(
        h.written_at("Helpers::Numeric", Some("Billing::Invoice")),
        "Billing::Helpers::Numeric"
    );
    assert_eq!(h.written_at("Sales::Account", Some("Billing")), "Sales::Account");
}

fn includes(c: &mut Collected, host: &str, module: &str) {
    c.mixins.push((r(host, Some(host)), r(module, Some(host))));
    c.included.push((r(host, Some(host)), r(module, Some(host))));
}

#[test]
fn a_rename_reaches_an_exclusively_included_module() {
    let mut only = declared(&["Naming", "Account"]);
    includes(&mut only, "Account", "Naming");
    assert!(build(only).may_rename_into("Naming", "Account"));

    let mut with_subclass = declared(&["Naming", "Account", "Premium"]);
    includes(&mut with_subclass, "Account", "Naming");
    with_subclass.superclass = vec![("Premium".to_string(), r("Account", None))];
    includes(&mut with_subclass, "Premium", "Naming");
    assert!(build(with_subclass).may_rename_into("Naming", "Account"));

    let mut shared = declared(&["Naming", "Account", "Invoice"]);
    includes(&mut shared, "Account", "Naming");
    includes(&mut shared, "Invoice", "Naming");
    assert!(!build(shared).may_rename_into("Naming", "Account"));

    let mut extended = declared(&["Naming", "Account"]);
    extended.mixins = vec![(r("Account", Some("Account")), r("Naming", Some("Account")))];
    let extended = build(extended);
    assert!(!extended.may_rename_into("Naming", "Account"));
    assert!(extended.contributes_to("Naming", "Account"));

    let orphan = build(declared(&["Naming"]));
    assert!(!orphan.may_rename_into("Naming", "Account"));
}

#[test]
fn a_cycle_terminates() {
    let mut c = declared(&["A", "B"]);
    c.superclass = vec![
        ("A".to_string(), r("B", None)),
        ("B".to_string(), r("A", None)),
    ];
    let h = build(c);
    assert!(!h.descends_from("A", "Nowhere"));
    assert!(h.descends_from("A", "B"));
}

#[test]
fn a_refinement_is_listed_for_the_class_it_refines() {
    let mut c = declared(&["Refined", "Account"]);
    c.refines = vec![(r("Account", Some("Refined")), r("Refined", None))];
    let h = build(c);
    assert_eq!(h.refined_by("Account"), vec!["Refined".to_string()]);
    assert!(h.refined_by("Invoice").is_empty());
}

#[test]
fn absorbing_keeps_both_files_in_order() {
    let mut a = declared(&["A"]);
    let mut b = declared(&["B"]);
    b.superclass = vec![("B".to_string(), r("A", None))];
    a.absorb(b);
    assert_eq!(a.declared, vec!["A".to_string(), "B".to_string()]);
    assert_eq!(a.constants(), vec!["A".to_string(), "B".to_string(), "B".to_string(), "A".to_string()]);
}

#[test]
fn an_empty_hierarchy_knows_only_identity() {
    let h = Hierarchy::new();
    assert!(h.descends_from("A", "A"));
    assert!(!h.descends_from("A", "B"));
    assert_eq!(h.canonical("A"), "A");
}

fn read(name: &str) -> Expr {
    Expr::Read(name.to_string())
}

fn node(shape: Shape, children: Vec<Tree>) -> Tree {
    Tree { shape, children }
}

fn class(name: &str, superclass: Option<Expr>, body: Vec<Tree>) -> Tree {
    node(Shape::Class { path: read(name), superclass }, body)
}

fn module(name: &str, body: Vec<Tree>) -> Tree {
    node(Shape::Module { path: read(name) }, body)
}

fn call(name: &str, receiver: Option<Expr>, arguments: Vec<Expr>) -> Tree {
    node(Shape::Call { name: name.to_string(), receiver, arguments }, Vec::new())
}

fn program(statements: Vec<Tree>) -> Tree {
    node(Shape::Other, statements)
}

fn from_tree(tree: &Tree) -> Hierarchy {
    build(links(tree))
}

#[test]
fn a_superclass_is_read_where_it_was_written() {
    // module Billing; class Account; end; class Premium < Account; end; end
    let tree = program(vec![module(
        "Billing",
        vec![class("Account", None, vec![]), class("Premium", Some(read("Account")), vec![])],
    )]);
    let found = links(&tree);
    assert_eq!(
        found.declared,
        vec!["Billing".to_string(), "Billing::Premium".to_string(), "Billing::Account".to_string()]
    );
    assert_eq!(found.superclass.len(), 1);
    assert_eq!(found.superclass[0].0, "Billing::Premium");
    assert_eq!(found.superclass[0].1.written, "Account");
    assert_eq!(found.superclass[0].1.enclosing.as_deref(), Some("Billing"));
    let h = build(found);
    assert!(h.descends_from("Billing::Premium", "Billing::Account"));
}

#[test]
fn extend_self_and_module_function_are_self_extensions() {
    for body in [
        call("extend", None, vec![Expr::SelfRef]),
        call("module_function", None, vec![]),
        call("module_function", None, vec![Expr::Other]),
    ] {
        let h = from_tree(&program(vec![module("Util", vec![body])]));
        assert!(h.extends_itself("Util"));
    }
    let other = from_tree(&program(vec![module("Util", vec![call("extend", None, vec![read("Other")])])]));
    assert!(!other.extends_itself("Util"));
}

#[test]
fn a_constant_written_as_another_is_an_alias() {
    let tree = program(vec![
        class("Account", None, vec![]),
        node(Shape::ConstantWrite { name: "Alias".into(), value: read("Account") }, vec![]),
        node(Shape::ConstantWrite { name: "LIMIT".into(), value: Expr::Other }, vec![]),
    ]);
    let h = from_tree(&tree);
    assert_eq!(h.canonical("Alias"), "Account");
    assert_eq!(h.canonical("LIMIT"), "LIMIT");
}

#[test]
fn a_refinement_belongs_to_the_module_that_writes_it() {
    // module Refined; refine Account do; end; end
    let tree = program(vec![module("Refined", vec![call("refine", None, vec![read("Account")])])]);
    let h = from_tree(&tree);
    assert_eq!(h.refined_by("Account"), vec!["Refined".to_string()]);
    assert!(h.contributes_to("Refined", "Account"));
}

#[test]
fn a_receiver_names_the_class_a_mixin_attaches_to() {
    // module Audit; end; Account.prepend(Audit)
    let tree = program(vec![module("Audit", vec![]), call("prepend", Some(read("Account")), vec![read("Audit")])]);
    let h = from_tree(&tree);
    assert!(h.contributes_to("Audit", "Account"));
    assert!(h.may_rename_into("Audit", "Account"));
}

/// Search files whose trees are given, as a caller that parses them would.
fn search(sources: Vec<(&str, Tree)>, roots: &[&str]) -> (Hierarchy, usize) {
    let bytes: Vec<Vec<u8>> = sources.iter().map(|(b, _)| b.as_bytes().to_vec()).collect();
    let roots: Vec<String> = roots.iter().map(|r| r.to_string()).collect();
    let trees: Vec<Option<Tree>> = sources.into_iter().map(|(_, t)| Some(t)).collect();
    reach(&roots, &bytes, &trees)
}

/// The same search driven round by round through the state machine.
fn search_by_rounds(sources: Vec<(&str, Tree)>, roots: &[&str]) -> (Hierarchy, usize) {
    let bytes: Vec<Vec<u8>> = sources.iter().map(|(b, _)| b.as_bytes().to_vec()).collect();
    let roots: Vec<String> = roots.iter().map(|r| r.to_string()).collect();
    let mut reach = Reach::new(&roots, bytes.len());
    loop {
        let round: Vec<(usize, Collected)> =
            reach.candidates(&bytes).into_iter().map(|i| (i, links(&sources[i].1))).collect();
        if !reach.absorb(round) {
            break;
        }
    }
    reach.finish()
}

#[test]
fn a_search_reads_what_its_rounds_read() {
    let sources = || -> Vec<(&'static str, Tree)> {
        vec![
            ("class Premium < Account
end
", program(vec![class("Premium", Some(read("Account")), vec![])])),
            ("class Gold < Premium
end
", program(vec![class("Gold", Some(read("Premium")), vec![])])),
            ("class Other
end
", program(vec![class("Other", None, vec![])])),
        ]
    };
    let (h, parsed) = search(sources(), &["Account"]);
    let (g, by_rounds) = search_by_rounds(sources(), &["Account"]);
    assert_eq!(parsed, 2);
    assert_eq!(by_rounds, 2);
    assert!(h.descends_from("Gold", "Account"));
    assert!(g.descends_from("Gold", "Account"));
    assert!(!h.descends_from("Other", "Account"));
}

#[test]
fn a_file_that_does_not_parse_is_not_counted_as_read() {
    let bytes: Vec<Vec<u8>> = vec![b"class Premium < Account
".to_vec(), b"class Gold < Premium
end
".to_vec()];
    let trees: Vec<Option<Tree>> = vec![None, Some(program(vec![class("Gold", Some(read("Premium")), vec![])]))];
    let (h, parsed) = reach(&vec!["Account".to_string()], &bytes, &trees);
    assert_eq!(parsed, 0);
    assert!(!h.descends_from("Gold", "Account"));
}

#[test]
fn a_mixin_needs_no_inheritance_line_to_be_found() {
    let patches: Vec<(&str, Tree, &str)> = vec![
        (
            "module Audit; end\nAccount.prepend(Audit)\n",
            program(vec![module("Audit", vec![]), call("prepend", Some(read("Account")), vec![read("Audit")])]),
            "Audit",
        ),
        (
            "module Audit; end\nAccount.include(Audit)\n",
            program(vec![module("Audit", vec![]), call("include", Some(read("Account")), vec![read("Audit")])]),
            "Audit",
        ),
        (
            "module Refined\n  refine Account do\n  end\nend\n",
            program(vec![module("Refined", vec![call("refine", None, vec![read("Account")])])]),
            "Refined",
        ),
    ];
    for (patch, tree, module) in patches {
        assert!(
            !patch.contains("class") && !patch.contains('<'),
            "the fixture must not smuggle in the inheritance shape: {patch}"
        );
        let (h, parsed) = search(vec![(patch, tree)], &["Account"]);
        assert_eq!(parsed, 1, "the file must be parsed: {patch}");
        assert!(h.contributes_to(module, "Account"), "{module} contributes to Account: {patch}");
    }
}

#[test]
fn the_search_set_reaches_a_module_a_distant_class_includes() {
    let sources: Vec<(&str, Tree)> = vec![
        (
            "class Account\n  include Naming\nend\n",
            program(vec![class("Account", None, vec![call("include", None, vec![read("Naming")])])]),
        ),
        (
            "module Naming\n  def display_name; end\nend\n",
            program(vec![module("Naming", vec![node(Shape::Other, vec![])])]),
        ),
        (
            "class Invoice\n  include Naming\nend\n",
            program(vec![class("Invoice", None, vec![call("include", None, vec![read("Naming")])])]),
        ),
    ];
    let (h, parsed) = search(sources, &["Account"]);
    assert_eq!(parsed, 3);
    assert!(!h.may_rename_into("Naming", "Account"));
}

#[test]
fn a_file_naming_nothing_known_is_not_read() {
    let sources: Vec<(&str, Tree)> = vec![
        ("class Account; end\n", program(vec![class("Account", None, vec![])])),
        ("class Unrelated; end\n", program(vec![class("Unrelated", None, vec![])])),
        (
            "class Gold < Premium; end\n",
            program(vec![class("Gold", Some(read("Premium")), vec![])]),
        ),
        (
            "class Premium < Account; end\n",
            program(vec![class("Premium", Some(read("Account")), vec![])]),
        ),
    ];
    let (h, parsed) = search(sources, &["Account"]);
    assert_eq!(parsed, 3);
    assert!(h.descends_from("Gold", "Account"));
}
