use treehouse::ast::{Branch, Roots};
use treehouse::error::{ParseError, ParseErrorKind};
use treehouse::pull::{BranchKind, Parser};

fn parse(input: &str) -> Result<Roots, ParseError> {
    Roots::parse(&mut Parser { input, position: 0 })
}

#[test]
fn parses_sibling_branches() {
    let roots = parse("- a\n+ b\n").unwrap();
    assert_eq!(roots.branches.len(), 2);
    assert_eq!(roots.branches[0].kind, BranchKind::Expanded);
    assert_eq!(roots.branches[0].kind_span, 0..1);
    assert_eq!(roots.branches[0].content, 1..4);
    assert_eq!(roots.branches[1].kind, BranchKind::Collapsed);
    assert_eq!(roots.branches[1].kind_span, 4..5);
    assert_eq!(roots.branches[1].content, 5..8);
}

#[test]
fn parses_children() {
    let source = "- a\n  + b\n- c";
    let roots = parse(source).unwrap();
    assert_eq!(roots.branches.len(), 2);
    let a: &Branch = &roots.branches[0];
    assert_eq!(&source[a.content.clone()], " a\n");
    assert_eq!(a.children.len(), 1);
    assert_eq!(a.children[0].indent_level, 2);
    assert_eq!(a.children[0].kind, BranchKind::Collapsed);
    assert_eq!(&source[a.children[0].content.clone()], " b\n");
    assert_eq!(&source[roots.branches[1].content.clone()], " c");
}

#[test]
fn content_spans_continuation_lines() {
    let source = "- a\n  more\n- b\n";
    let roots = parse(source).unwrap();
    assert_eq!(&source[roots.branches[0].content.clone()], " a\n  more\n");
}

#[test]
fn attributes_are_attached_to_their_branch() {
    let source = "% id = \"x\"\n- a\n";
    let roots = parse(source).unwrap();
    let branch = &roots.branches[0];
    let attributes = branch.attributes.clone().unwrap();
    assert_eq!(attributes.percent, 0..1);
    assert_eq!(&source[attributes.data.clone()], " id = \"x\"\n");
    assert_eq!(branch.kind_span, 11..12);
}

#[test]
fn indented_root_is_an_error() {
    let error = parse("  - a\n").unwrap_err();
    assert_eq!(error.kind, ParseErrorKind::RootIndentLevel);
    assert_eq!(error.range, 2..3);
}

#[test]
fn missing_branch_kind_is_an_error() {
    let error = parse("a\n").unwrap_err();
    assert_eq!(error.kind, ParseErrorKind::BranchKindExpected);
    assert_eq!(error.range, 0..1);
}

#[test]
fn inconsistent_indentation_is_an_error() {
    let error = parse("- a\n  - b\n c\n").unwrap_err();
    assert_eq!(error.kind, ParseErrorKind::InconsistentIndentation { got: 1, expected: 2 });
    assert_eq!(error.range, 10..11);
}

#[test]
fn unterminated_code_block_is_an_error() {
    let error = parse("- ```\n").unwrap_err();
    assert_eq!(error.kind, ParseErrorKind::UnterminatedCodeBlock);
    assert_eq!(error.range, 2..5);
}

#[test]
fn code_blocks_may_hold_branch_characters() {
    let source = "- ```\n- not a branch\n```";
    let roots = parse(source).unwrap();
    assert_eq!(roots.branches.len(), 1);
    assert_eq!(&source[roots.branches[0].content.clone()], " ```\n- not a branch\n```");
}

#[test]
fn empty_input_has_no_branches() {
    assert_eq!(parse("").unwrap().branches.len(), 0);
}

#[test]
fn branch_kind_characters() {
    assert_eq!(BranchKind::Expanded.char(), '-');
    assert_eq!(BranchKind::Collapsed.char(), '+');
}

#[test]
fn error_messages() {
    assert_eq!(ParseErrorKind::BranchKindExpected.message(), "branch kind (`+` or `-`) expected");
    assert_eq!(ParseErrorKind::RootIndentLevel.message(), "root branches must not be indented");
    assert_eq!(
        ParseErrorKind::InconsistentIndentation { got: 1, expected: 12 }.message(),
        "at least 12 spaces of indentation were expected, but got 1"
    );
    assert_eq!(ParseErrorKind::UnterminatedCodeBlock.message(), "unterminated code block");
}

#[test]
fn error_at_keeps_kind_and_range() {
    let error = ParseErrorKind::RootIndentLevel.at(3..4);
    assert_eq!(error.kind, ParseErrorKind::RootIndentLevel);
    assert_eq!(error.range, 3..4);
}

#[test]
fn pull_parser_reports_branch_events() {
    let source = "- a\n  - b\n";
    let mut parser = Parser { input: source, position: 0 };
    let first = parser.next_branch().unwrap().unwrap();
    assert_eq!(first.indent_level, 0);
    assert_eq!(first.content, 1..4);
    assert_eq!(parser.peek_indent_level(), 2);
    let second = parser.next_branch().unwrap().unwrap();
    assert_eq!(second.indent_level, 2);
    assert_eq!(second.kind_span, 6..7);
    assert!(parser.next_branch().unwrap().is_none());
}

#[test]
fn top_level_attributes_are_read() {
    let source = "%% title = \"t\"\n- a\n";
    let mut parser = Parser { input: source, position: 0 };
    let attributes = parser.top_level_attributes().unwrap().unwrap();
    assert_eq!(attributes.percent, 0..2);
    assert_eq!(&source[attributes.data.clone()], " title = \"t\"\n");
    assert_eq!(parser.position, 15);
}

#[test]
fn single_percent_is_not_top_level_attributes() {
    let mut parser = Parser { input: "% id = 1\n- a\n", position: 0 };
    assert!(parser.top_level_attributes().unwrap().is_none());
    assert_eq!(parser.position, 0);
}
