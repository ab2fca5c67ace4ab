use treehouse::ast::Roots;
use treehouse::incubator::HtmlGenerator;
use treehouse::pull::{BranchEvent, BranchKind, Parser};
use treehouse::tree_html::{branch_to_html, branches_to_html};

#[test]
fn nested_branches_become_nested_lists() {
    let source = "- a\n  - b\n";
    let roots = Roots::parse(&mut Parser { input: source, position: 0 }).unwrap();
    let mut s = String::new();
    branches_to_html(&mut s, &roots.branches, source);
    assert_eq!(
        s,
        "<ul><li><details open><summary> a\n</summary><ul><li> b\n</li></ul></details></li></ul>"
    );
}

#[test]
fn collapsed_branches_are_closed_details() {
    let source = "+ a\n  - b\n";
    let roots = Roots::parse(&mut Parser { input: source, position: 0 }).unwrap();
    let mut s = String::new();
    branch_to_html(&mut s, &roots.branches[0], source);
    assert_eq!(s, "<li><details><summary> a\n</summary><ul><li> b\n</li></ul></details></li>");
}

#[test]
fn leaves_are_plain_items() {
    let source = "- leaf";
    let roots = Roots::parse(&mut Parser { input: source, position: 0 }).unwrap();
    let mut s = String::from("x");
    branch_to_html(&mut s, &roots.branches[0], source);
    assert_eq!(s, "x<li> leaf</li>");
}

fn event(indent_level: usize, content: std::ops::Range<usize>) -> BranchEvent {
    BranchEvent {
        indent_level,
        kind: BranchKind::Expanded,
        kind_span: content.start - 1..content.start,
        content,
        attributes: None,
    }
}

#[test]
fn incubator_opens_and_closes_lists_by_indentation() {
    let source = "- a\n  - b\n- c\n";
    let mut generator = HtmlGenerator::new();
    generator.add(source, &event(0, 1..4));
    generator.add(source, &event(2, 7..10));
    generator.add(source, &event(0, 11..14));
    assert_eq!(
        generator.finish(),
        "<ul><li> a\n</li><ul><li> b\n</li></ul><li> c\n</li></ul>"
    );
}

#[test]
fn incubator_closes_every_open_list() {
    let source = "- a\n  - b\n    - c\n";
    let mut generator = HtmlGenerator::default();
    generator.add(source, &event(0, 1..4));
    generator.add(source, &event(2, 7..10));
    generator.add(source, &event(4, 15..18));
    assert_eq!(
        generator.finish(),
        "<ul><li> a\n</li><ul><li> b\n</li><ul><li> c\n</li></ul></ul></ul>"
    );
}

#[test]
fn empty_incubator_is_empty() {
    assert_eq!(HtmlGenerator::new().finish(), "");
}
