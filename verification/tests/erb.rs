use rwr::erb::{splice, translate};
use rwr::rewrite::Edit;

#[test]
fn a_tag_body_maps_back_to_the_template() {
    let template = b"<h1><%= account.display_name %></h1>\n";
    let t = translate(template).expect("has ruby");
    assert_eq!(t.ruby, b"account.display_name\n");
    let (start, end) = t.to_template(8, 20).expect("maps");
    assert_eq!(&template[start..end], b"display_name");
}

#[test]
fn control_flow_across_tags_becomes_one_program() {
    let t = translate(b"<% posts.each do |p| %>\n<%= p.title %>\n<% end %>").expect("ruby");
    assert_eq!(t.ruby, b"posts.each do |p|\np.title\nend\n");
    assert_eq!(ruby_prism::parse(&t.ruby).errors().count(), 0);
}

#[test]
fn a_range_crossing_two_fragments_refuses() {
    let t = translate(b"<%= a %> and <%= b %>").expect("ruby");
    assert_eq!(t.ruby, b"a\nb\n");
    assert!(t.to_template(0, 1).is_some());
    assert!(t.to_template(0, 3).is_none());
}

#[test]
fn an_edit_lands_in_the_template() {
    let template = b"<h1><%= account.display_name %></h1>\n".to_vec();
    let t = translate(&template).expect("ruby");
    let edits = vec![Edit {
        start: 8,
        end: 20,
        text: "full_name".to_string(),
    }];
    let out = splice(&t, &template, &edits).expect("splices");
    assert_eq!(out, b"<h1><%= account.full_name %></h1>\n");
}

#[test]
fn sigils_and_trims_are_not_ruby() {
    assert_eq!(translate(b"<%= a %>").expect("ruby").ruby, b"a\n");
    assert_eq!(translate(b"<%- a -%>").expect("ruby").ruby, b"a\n");
    assert_eq!(translate(b"<%== a %>").expect("ruby").ruby, b"a\n");
    assert!(translate(b"<%# just a note %>").is_none());
    assert!(translate(b"<h1>plain</h1>").is_none());
}

#[test]
fn an_escaped_tag_is_not_ruby() {
    assert!(translate(b"<%% not a tag %>").is_none());
    let t = translate(b"<%% x %> <%= y %>").expect("ruby");
    assert_eq!(t.ruby, b"y\n");
}

#[test]
fn an_unclosed_tag_ends_the_scan() {
    assert!(translate(b"<%= a").is_none());
}

#[test]
fn overlapping_edits_refuse_and_disjoint_ones_apply_in_order() {
    let template = b"<%= aa + bb %>".to_vec();
    let t = translate(&template).expect("ruby");
    assert_eq!(t.ruby, b"aa + bb\n");
    // Given out of order, the edits still land where they belong.
    let edits = vec![
        Edit { start: 5, end: 7, text: "y".into() },
        Edit { start: 0, end: 2, text: "x".into() },
    ];
    assert_eq!(splice(&t, &template, &edits).expect("splices"), b"<%= x + y %>");
    let clashing = vec![
        Edit { start: 0, end: 4, text: "x".into() },
        Edit { start: 2, end: 6, text: "y".into() },
    ];
    assert!(splice(&t, &template, &clashing).is_none());
}

#[test]
fn an_offset_maps_to_its_template_position() {
    let t = translate(b"ab<%= c %>").expect("ruby");
    assert_eq!(rwr::erb::template_offset(&t, 0), Some(6));
    assert_eq!(rwr::erb::template_offset(&t, 5), None);
}
