use treehouse::fix::{adjust_leading_spaces, fix_file, fix_indent_in_generated_toml};
use treehouse::sema::Treehouse;

fn fixed(source: &str) -> (Result<String, treehouse::sema::ErrorsEmitted>, Treehouse) {
    let mut treehouse = Treehouse::new();
    let file_id = treehouse.add_file("page.tree".to_owned(), None, source.to_owned());
    (fix_file(&mut treehouse, file_id), treehouse)
}

#[test]
fn generated_toml_is_reindented() {
    assert_eq!(fix_indent_in_generated_toml("a = 1\n b = 2\n\n", 2), " a = 1\n    b = 2\n  ");
    assert_eq!(fix_indent_in_generated_toml("x\n\ny", 0), " x\n\n  y\n");
    assert_eq!(fix_indent_in_generated_toml("a\r\nb", 0), " a\n  b\n");
    assert_eq!(fix_indent_in_generated_toml("      deep", 1), "      deep\n ");
    assert_eq!(fix_indent_in_generated_toml("  \n", 3), "   ");
}

#[test]
fn leading_spaces_are_brought_to_one() {
    assert_eq!(adjust_leading_spaces("   x"), " x");
    assert_eq!(adjust_leading_spaces("x = 1"), " x = 1");
    assert_eq!(adjust_leading_spaces(" x"), " x");
    assert_eq!(adjust_leading_spaces(""), " ");
}

#[test]
fn branches_without_attributes_get_an_id() {
    let (result, _) = fixed("- a\n  - b\n");
    let text = result.ok().unwrap();
    let lines: Vec<&str> = text.split('\n').collect();
    assert_eq!(lines.len(), 5);
    assert!(lines[0].starts_with("% id = \"") && lines[0].ends_with('"'));
    assert_eq!(lines[0].len(), "% id = \"\"".len() + 26);
    assert_eq!(lines[1], "- a");
    assert!(lines[2].starts_with("  % id = \"") && lines[2].ends_with('"'));
    assert_eq!(lines[3], "  - b");
    assert_eq!(lines[4], "");
    assert_ne!(lines[0][8..34], lines[2][10..36]);
}

#[test]
fn attributes_with_an_id_stay_as_they_are() {
    let source = "% id = \"x\"\n- a\n";
    let (result, treehouse) = fixed(source);
    assert_eq!(result.ok().unwrap(), source);
    assert!(treehouse.diagnostics.is_empty());
}

#[test]
fn attributes_without_an_id_gain_one() {
    let (result, _) = fixed("% title = \"x\"\n- a\n");
    let text = result.ok().unwrap();
    assert!(text.starts_with("% title = \"x\"\n  id = \""));
    assert!(text.ends_with("\"\n- a\n"));
}

#[test]
fn attributes_that_are_not_toml_are_reported_and_kept() {
    let source = "% = \n- a\n";
    let (result, treehouse) = fixed(source);
    assert_eq!(result.ok().unwrap(), source);
    assert_eq!(treehouse.diagnostics.len(), 1);
    assert_eq!(treehouse.diagnostics[0].code.as_deref(), Some("toml"));
}

#[test]
fn trees_that_do_not_parse_are_not_fixed() {
    let (result, treehouse) = fixed("  - a\n");
    assert!(result.is_err());
    assert_eq!(treehouse.diagnostics[0].code.as_deref(), Some("tree"));
}

#[test]
fn fixed_ids_are_ulids() {
    let (result, _) = fixed("- a\n");
    let text = result.ok().unwrap();
    let id = &text["% id = \"".len().."% id = \"".len() + 26];
    assert!(id.chars().all(|c| (c.is_ascii_digit() || c.is_ascii_uppercase()) && !"ILOU".contains(c)));
}
