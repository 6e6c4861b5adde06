use rwr::hierarchy::{Collected, Hierarchy, Ref};
use rwr::compare::{Node, Role};
use rwr::metavar::Arity;
use rwr::prepare::{Binding, Prepared};
use rwr::residue::{
    anchors, enclosing_classes, find, implicit_receiver, mentions, scoped_to, standalone, Context, Occurrence,
};

fn at(context: Context, scope: &[&str], implicit: bool, via: Option<&str>) -> Occurrence {
    Occurrence {
        context,
        byte_start: 0,
        byte_end: 1,
        scope: scope.iter().map(|s| s.to_string()).collect(),
        implicit,
        via: via.map(str::to_string),
    }
}

fn r(written: &str, enclosing: Option<&str>) -> Ref {
    Ref {
        written: written.to_string(),
        enclosing: enclosing.map(str::to_string),
    }
}

/// `Account`, its subclass `Premium`, a concern `Naming` mixed into Account,
/// and an unrelated `Invoice`.
fn program() -> Hierarchy {
    let mut c = Collected::new();
    c.declared = vec!["Account".into(), "Premium".into(), "Naming".into(), "Invoice".into()];
    c.superclass = vec![("Premium".to_string(), r("Account", None))];
    c.mixins = vec![(r("Account", Some("Account")), r("Naming", Some("Account")))];
    let constants = c.constants();
    Hierarchy::from_collected(c, constants)
}

#[test]
fn a_report_about_a_class_keeps_what_reaches_it() {
    let h = program();
    let kept = |o: Occurrence| !scoped_to(vec![o], "Account", &h).is_empty();

    // Written in the class, a concern of it, or a descendant.
    assert!(kept(at(Context::Definition, &["Account"], false, None)));
    assert!(kept(at(Context::Definition, &["Naming"], false, None)));
    assert!(kept(at(Context::Definition, &["Premium"], false, None)));
    // Written elsewhere.
    assert!(!kept(at(Context::Definition, &["Invoice"], false, None)));

    // An implicit call elsewhere has its receiver named by scope.
    assert!(!kept(at(Context::Call, &["Invoice"], true, None)));
    // An explicit call anywhere might be on an Account.
    assert!(kept(at(Context::Call, &["Invoice"], false, None)));
    // An implicit call inside the concern dispatches on the class.
    assert!(kept(at(Context::Call, &["Naming"], true, None)));

    // A symbol handed to a call reaches wherever it lives ...
    assert!(kept(at(Context::Symbol, &["Invoice"], false, Some("delegate"))));
    // ... unless the call defines a method of its own.
    assert!(!kept(at(Context::Symbol, &["Invoice"], false, Some("attr_reader"))));
    // A computed name in an unrelated class says nothing about this one.
    assert!(!kept(at(Context::Dynamic, &["Invoice"], false, Some("send"))));
}

#[test]
fn scoping_keeps_the_order_of_what_it_keeps() {
    let h = program();
    let out = scoped_to(
        vec![
            at(Context::Call, &["Account"], false, None),
            at(Context::Definition, &["Invoice"], false, None),
            at(Context::Comment, &["Premium"], false, None),
        ],
        "Account",
        &h,
    );
    let contexts: Vec<Context> = out.iter().map(|o| o.context).collect();
    assert_eq!(contexts, vec![Context::Call, Context::Comment]);
}

#[test]
fn a_scope_stack_names_each_enclosing_class() {
    let scope: Vec<String> = vec!["App".into(), "Helpers".into(), "Numeric".into()];
    assert_eq!(
        enclosing_classes(&scope),
        vec!["App".to_string(), "App::Helpers".to_string(), "App::Helpers::Numeric".to_string()]
    );
    let singleton: Vec<String> = vec!["Account".into(), "<<self".into()];
    assert_eq!(implicit_receiver(&singleton).as_deref(), Some("<<self"));
    let plain: Vec<String> = vec!["Account".into()];
    assert_eq!(implicit_receiver(&plain).as_deref(), Some("Account"));
}

#[test]
fn a_qualified_segment_is_not_a_mention() {
    let key = b"accounts.display_name";
    assert!(!standalone(key, 9, 12));
    let prose = b"the display_name here";
    assert!(standalone(prose, 4, 12));
}

#[test]
fn a_name_inside_a_string_is_reported_as_prose() {
    let source = b"say \"call display_name now\"";
    let anchors = vec![b"display_name".to_vec()];
    let scope: Vec<String> = vec!["Account".into()];
    let found = mentions(source, (5, 26), &anchors, &Vec::new(), &scope);
    assert_eq!(found.len(), 1);
    assert_eq!(found[0].context, Context::Prose);
    assert_eq!(found[0].byte_start, 10);
    assert_eq!(found[0].byte_end, 22);
    assert_eq!(found[0].scope, scope);

    // A site the rule matched is accounted for.
    let matched = vec![(10usize, 22usize)];
    assert!(mentions(source, (5, 26), &anchors, &matched, &scope).is_empty());
}

fn node(start: usize, end: usize, bare: Option<&str>, role: Role, children: Vec<Node>) -> Node {
    Node {
        reach: 0,
        name_at: None,
        delimited: None,
        kind: 0,
        atoms: vec![],
        children,
        start,
        end,
        bare: bare.map(|b| b.as_bytes().to_vec()),
        role,
    }
}

fn call(name: &str, receiver: bool, arguments: Option<(usize, usize)>, block: bool) -> Role {
    Role::Call { name: name.as_bytes().to_vec(), receiver, message: true, arguments, block }
}

fn prepared(placeholders: &[(&str, &str)]) -> Prepared {
    Prepared {
        source: String::new(),
        bindings: placeholders
            .iter()
            .map(|(p, n)| (p.to_string(), Binding { name: Some(n.to_string()), arity: Arity::One }))
            .collect(),
    }
}

#[test]
fn a_name_applied_to_metavariables_is_what_a_rule_is_anchored_on() {
    let p = prepared(&[("rwr_mv_0", "$R")]);
    // `$R.display_name`
    let receiver = node(0, 8, Some("rwr_mv_0"), call("rwr_mv_0", false, None, false), vec![]);
    let pattern = node(0, 21, None, call("display_name", true, None, false), vec![receiver]);
    assert_eq!(anchors(&pattern, &p), vec![b"display_name".to_vec()]);
    // `$R.each { }` is about a shape, not about `each`.
    let receiver = node(0, 8, Some("rwr_mv_0"), call("rwr_mv_0", false, None, false), vec![]);
    let block = node(14, 17, None, Role::Other, vec![]);
    let pattern = node(0, 17, None, call("each", true, None, true), vec![receiver, block]);
    assert!(anchors(&pattern, &p).is_empty());
    // `user.display_name`: a real receiver is a shape too.
    let receiver = node(0, 4, Some("user"), call("user", false, None, false), vec![]);
    let pattern = node(0, 17, None, call("display_name", true, None, false), vec![receiver]);
    assert!(anchors(&pattern, &p).is_empty());
}

#[test]
fn a_definition_and_a_definer_name_what_they_define() {
    let p = prepared(&[("rwr_mv_0", "$M")]);
    let def = node(0, 11, None, Role::Def { receiver: false, name: b"full_name".to_vec() }, vec![]);
    assert_eq!(anchors(&def, &p), vec![b"full_name".to_vec()]);
    let placeholder = node(0, 16, None, Role::Def { receiver: false, name: b"rwr_mv_0".to_vec() }, vec![]);
    assert!(anchors(&placeholder, &p).is_empty());
    // `attr_reader :name, "title", :rwr_mv_0`
    let args = node(
        12,
        38,
        None,
        Role::Arguments,
        vec![
            node(12, 17, None, Role::Symbol(b"name".to_vec()), vec![]),
            node(19, 26, None, Role::Str(b"title".to_vec(), (20, 25)), vec![]),
            node(28, 37, None, Role::Symbol(b"rwr_mv_0".to_vec()), vec![]),
        ],
    );
    let definer = node(0, 38, None, call("attr_reader", false, Some((12, 38)), false), vec![args]);
    assert_eq!(anchors(&definer, &p), vec![b"name".to_vec(), b"title".to_vec()]);
}

#[test]
fn every_occurrence_outside_the_matches_is_found_in_order() {
    let source = b"send(:bar)\nbar\n";
    let symbol = node(5, 9, None, Role::Symbol(b"bar".to_vec()), vec![]);
    let args = node(5, 9, None, Role::Arguments, vec![symbol]);
    let send = node(0, 10, None, call("send", false, Some((5, 9)), false), vec![args]);
    let bare = node(11, 14, Some("bar"), call("bar", false, None, false), vec![]);
    let root = node(0, 15, None, Role::Statements, vec![send, bare]);
    let anchors = vec![b"bar".to_vec()];
    let found = find(&root, &anchors, &vec![], source);
    assert_eq!(found.len(), 2);
    assert_eq!((found[0].context, found[0].byte_start, found[0].byte_end), (Context::Symbol, 5, 9));
    assert_eq!(found[0].via.as_deref(), Some("send"));
    assert!(!found[0].implicit);
    assert_eq!((found[1].context, found[1].byte_start, found[1].byte_end), (Context::Call, 11, 14));
    assert!(found[1].implicit);
    assert_eq!(found[1].via, None);
    // The call the rule matched is accounted for.
    let found = find(&root, &anchors, &vec![(11, 14)], source);
    assert_eq!(found.len(), 1);
    assert_eq!(found[0].context, Context::Symbol);
    // No anchor, no account.
    assert!(find(&root, &vec![], &vec![], source).is_empty());
}

#[test]
fn a_dispatcher_handed_a_computed_name_is_a_blind_spot() {
    let source = b"send(name)\n";
    let arg = node(5, 9, Some("name"), call("name", false, None, false), vec![]);
    let args = node(5, 9, None, Role::Arguments, vec![arg]);
    let send = node(0, 10, None, call("send", false, Some((5, 9)), false), vec![args]);
    let found = find(&send, &vec![b"bar".to_vec()], &vec![], source);
    assert_eq!(found.len(), 1);
    assert_eq!((found[0].context, found[0].byte_start, found[0].byte_end), (Context::Dynamic, 5, 9));
    assert_eq!(found[0].via.as_deref(), Some("send"));
}
