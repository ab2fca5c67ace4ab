use treehouse::branch_markup::{branch_markup, resolve_reference};
use treehouse::config::{Config, Markup, StringMap};
use treehouse::hamster::{alpha_key, check_maze_solution, SolutionError};
use treehouse::maze::{Cell, Maze};
use treehouse::sema::{Attributes, SemaBranch, Treehouse};
use treehouse::pull::BranchKind;
use treehouse::static_urls::StaticUrls;

#[test]
fn branch_markup_takes_the_indentation_off() {
    assert_eq!(branch_markup(" a\n    b\n  c\n", 2), "a\n  b\nc\n");
    assert_eq!(branch_markup(" x\r\n   y", 2), "x\n y\n");
    assert_eq!(branch_markup("", 4), "");
    assert_eq!(branch_markup("\n\n", 0), "\n\n");
}

fn config() -> Config {
    let mut defs = StringMap::new();
    defs.insert_if_absent("rust".to_owned(), "https://rust-lang.org".to_owned());
    let mut pics = StringMap::new();
    pics.insert_if_absent("cat".to_owned(), "cat-1.png".to_owned());
    Config {
        site: "https://example.org".to_owned(),
        user: StringMap::new(),
        defs,
        redirects: StringMap::new(),
        emoji: StringMap::new(),
        pics,
        markup: Markup::Markdown,
    }
}

#[test]
fn reference_links_resolve_by_kind() {
    let config = config();
    let mut treehouse = Treehouse::new();
    let id = treehouse.tree.add_branch(SemaBranch {
        file_id: 0,
        indent_level: 0,
        kind: BranchKind::Expanded,
        kind_span: 0..1,
        content: 1..2,
        html_id: "page:x".to_owned(),
        attributes: Attributes { id: "x".to_owned(), ..Attributes::default() },
        children: vec![],
    });
    treehouse.branches_by_named_id.insert("x".to_owned(), id);
    assert_eq!(resolve_reference(&config, &treehouse, "def:rust").as_deref(), Some("https://rust-lang.org"));
    assert_eq!(resolve_reference(&config, &treehouse, "branch:x").as_deref(), Some("https://example.org/b?x"));
    assert_eq!(resolve_reference(&config, &treehouse, "page:a/b").as_deref(), Some("https://example.org/a/b"));
    assert_eq!(
        resolve_reference(&config, &treehouse, "pic:cat").as_deref(),
        Some("https://example.org/static/pic/cat-1.png")
    );
    assert_eq!(resolve_reference(&config, &treehouse, "pic:dog"), None);
    assert_eq!(resolve_reference(&config, &treehouse, "other:x"), None);
    assert_eq!(resolve_reference(&config, &treehouse, "nocolon"), None);
}

#[test]
fn solution_errors_explain_themselves() {
    let mut maze = Maze::new(5, 5);
    maze.set((1, 1), Cell::Empty);
    let error = check_maze_solution(&maze, "?").unwrap_err();
    assert_eq!(
        error.message(),
        "invalid character encountered at input string index 0: '?'. only 'E', 'S', 'W', 'N' are allowed"
    );
    assert_eq!(
        SolutionError::NotAtExit.message(),
        "the hamster did not reach the southeastmost corner of the maze"
    );
    assert!(SolutionError::HitWall { path: "P".to_owned() }
        .message()
        .starts_with("the hamster walked into a wall.\n"));
    assert!(SolutionError::Backtracked { path: "P".to_owned() }.message().ends_with("point of error:\nP"));
    assert_eq!(
        SolutionError::InvalidCharacter { index: 12, character: '\n' }.message(),
        "invalid character encountered at input string index 12: '\\n'. only 'E', 'S', 'W', 'N' are allowed"
    );
}

#[test]
fn alpha_keys_are_letters_and_an_alpha() {
    let key = alpha_key();
    let chars: Vec<char> = key.chars().collect();
    assert_eq!(chars.len(), 34);
    assert!(chars[..33].iter().all(|c| c.is_ascii_uppercase()));
    assert_eq!(chars[33], 'α');
}

#[test]
fn static_urls_carry_the_hash_of_the_contents() {
    let mut urls = StaticUrls::new("static".to_owned(), "https://example.org/static".to_owned());
    assert_eq!(urls.cached("a.css"), None);
    let url = urls.url_of("a.css", b"abc");
    assert_eq!(url, "https://example.org/static/a.css?cache=b3-6437b3ac");
    assert_eq!(urls.cached("a.css").as_deref(), Some(url.as_str()));
    assert_ne!(urls.url_of("b.css", b"abd"), "https://example.org/static/b.css?cache=b3-6437b3ac");
}
