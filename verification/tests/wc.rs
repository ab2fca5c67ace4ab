use treehouse::ast::Roots;
use treehouse::pull::Parser;
use treehouse::wc::{count_words, is_whitespace, wc_branch, wc_roots};

#[test]
fn counts_words_split_by_white_space() {
    assert_eq!(count_words("hello world  foo"), 3);
    assert_eq!(count_words("  leading and trailing\t\n"), 3);
    assert_eq!(count_words(""), 0);
    assert_eq!(count_words("   "), 0);
    assert_eq!(count_words("one"), 1);
}

#[test]
fn unicode_white_space_separates_words() {
    assert_eq!(count_words("a\u{2003}b\u{00a0}c"), 3);
    assert!(is_whitespace('\u{3000}'));
    assert!(!is_whitespace('x'));
}

#[test]
fn counts_words_of_whole_trees() {
    let source = "- one two\n  - three\n- four\n";
    let roots = Roots::parse(&mut Parser { input: source, position: 0 }).unwrap();
    assert_eq!(wc_roots(source, &roots), 4);
    assert_eq!(wc_branch(source, &roots.branches[0]), 3);
}
