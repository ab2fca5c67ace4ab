use treehouse::config::{Config, Markup, StringMap};
use treehouse::escape::{EscapeAttribute, EscapeHtml};
use treehouse::generate::{
    feed_of, is_standalone_template, page_of, template_name, wrangle_handlebars_error_into_diagnostic,
};
use treehouse::import_map::{ImportMap, ImportRoot, ModuleFile};
use treehouse::hamster::{key_answer_step, key_command_step, key_maze, KeyInput, KeyStep};
use treehouse::maze::{Cell, Maze};
use treehouse::navmap::build_navigation_map;
use treehouse::pull::BranchKind;
use treehouse::sema::{
    Attributes, Content, LabelStyle, Picture, RootAttributes, SemaBranch, SemaBranchId, SemaRoots, Severity, Treehouse,
};
use treehouse::serve::{
    branch_page, contents_are_ok, page_response, replace_first, with_branch_metadata, PageResponse,
    PER_BRANCH_METADATA_MARKER,
};
use wyrand::WyRand;

fn config() -> Config {
    let mut pics = StringMap::new();
    pics.insert_if_absent("cat".to_owned(), "cat-1.png".to_owned());
    let mut redirects = StringMap::new();
    redirects.insert_if_absent("old".to_owned(), "new".to_owned());
    Config {
        site: "https://example.org".to_owned(),
        user: StringMap::new(),
        defs: StringMap::new(),
        redirects,
        emoji: StringMap::new(),
        pics,
        markup: Markup::Markdown,
    }
}

fn corridor() -> Maze {
    let mut maze = Maze::new(5, 5);
    maze.set((1, 1), Cell::Empty);
    maze.set((2, 1), Cell::Empty);
    maze.set((3, 1), Cell::Empty);
    maze.set((3, 2), Cell::Empty);
    maze.set((3, 3), Cell::Empty);
    maze
}

#[test]
fn key_registration_starts_with_the_key_command() {
    assert!(matches!(key_command_step(&KeyInput::Text("key".to_owned())), KeyStep::NewMaze));
    match key_command_step(&KeyInput::Text("door".to_owned())) {
        KeyStep::ReplyAndClose(reply) => assert_eq!(reply, "error: unknown command"),
        other => panic!("unexpected step: {other:?}"),
    }
    match key_command_step(&KeyInput::NotText) {
        KeyStep::ReplyAndClose(reply) => assert_eq!(reply, "error: unknown command"),
        other => panic!("unexpected step: {other:?}"),
    }
    assert!(matches!(key_command_step(&KeyInput::Closed), KeyStep::Close));
    assert!(matches!(key_command_step(&KeyInput::Failed), KeyStep::Abort));
}

#[test]
fn a_solved_maze_earns_a_key() {
    match key_answer_step(&corridor(), &KeyInput::Text("ES".to_owned())) {
        KeyStep::IssueKey(key, reply) => {
            assert_eq!(reply, format!("ok: {key}"));
            assert_eq!(key.chars().count(), 34);
            assert!(key.ends_with('\u{03b1}'));
        }
        other => panic!("unexpected step: {other:?}"),
    }
}

#[test]
fn a_wrong_solution_is_answered_with_its_error() {
    match key_answer_step(&corridor(), &KeyInput::Text("X".to_owned())) {
        KeyStep::Reply(reply) => assert_eq!(
            reply,
            "error: invalid character encountered at input string index 0: 'X'. only 'E', 'S', 'W', 'N' are allowed"
        ),
        other => panic!("unexpected step: {other:?}"),
    }
    match key_answer_step(&corridor(), &KeyInput::Text(String::new())) {
        KeyStep::Reply(reply) => {
            assert_eq!(reply, "error: the hamster did not reach the southeastmost corner of the maze")
        }
        other => panic!("unexpected step: {other:?}"),
    }
    assert!(matches!(key_answer_step(&corridor(), &KeyInput::NotText), KeyStep::Abort));
    assert!(matches!(key_answer_step(&corridor(), &KeyInput::Closed), KeyStep::Close));
    assert!(matches!(key_answer_step(&corridor(), &KeyInput::Failed), KeyStep::Abort));
}

#[test]
fn key_mazes_are_tall_and_narrow() {
    let mut rng = WyRand::new(7);
    let (maze, picture) = key_maze(&mut rng);
    assert_eq!((maze.width, maze.height), (11, 1035));
    assert_eq!(picture, maze.render_default());
    assert_eq!(picture.lines().count(), 1035);
    assert_eq!(maze.get((1, 1)), Some(Cell::Empty));
}

#[test]
fn pages_are_served_from_html_files_or_redirected() {
    let config = config();
    assert_eq!(page_response(&config, "a/b"), PageResponse::File("a/b.html".to_owned()));
    assert_eq!(page_response(&config, "a/b.html"), PageResponse::File("a/b.html".to_owned()));
    assert_eq!(page_response(&config, "old"), PageResponse::Redirect("https://example.org/new".to_owned()));
    assert_eq!(page_response(&config, "old.html"), PageResponse::Redirect("https://example.org/new".to_owned()));
    assert_eq!(page_response(&config, ".html"), PageResponse::File(".html".to_owned()));
}

#[test]
fn the_first_occurrence_is_replaced() {
    assert_eq!(replace_first("a-b-c", "-", "+"), "a+b-c");
    assert_eq!(replace_first("abc", "x", "+"), "abc");
    assert_eq!(replace_first("abc", "", "+"), "+abc");
    assert_eq!(replace_first("ab", "abc", "+"), "ab");
    assert_eq!(replace_first("aaa", "aa", "b"), "ba");
}

#[test]
fn branch_metadata_goes_where_its_marker_is() {
    let page = format!("<head>{PER_BRANCH_METADATA_MARKER}</head>{PER_BRANCH_METADATA_MARKER}");
    assert_eq!(
        with_branch_metadata(&page, "<meta>"),
        format!("<head><meta></head>{PER_BRANCH_METADATA_MARKER}")
    );
    assert_eq!(with_branch_metadata("<head></head>", "<meta>"), "<head></head>");
}

fn branch(file_id: usize, id: &str, content: std::ops::Range<usize>) -> SemaBranch {
    SemaBranch {
        file_id,
        indent_level: 0,
        kind: BranchKind::Expanded,
        kind_span: 0..1,
        content,
        html_id: id.to_owned(),
        attributes: Attributes { id: id.to_owned(), ..Attributes::default() },
        children: vec![],
    }
}

fn branch_site() -> Treehouse {
    let mut treehouse = Treehouse::new();
    let page = treehouse.add_file("page.tree".to_owned(), Some("page".to_owned()), "- <hello> world  \n".to_owned());
    let other = treehouse.add_file("notes.txt".to_owned(), None, "- loose".to_owned());
    let a = treehouse.tree.add_branch(branch(page, "a", 2..18));
    let b = treehouse.tree.add_branch(branch(other, "b", 2..7));
    treehouse.branches_by_named_id.insert("a".to_owned(), a);
    treehouse.branches_by_named_id.insert("b".to_owned(), b);
    treehouse
}

#[test]
fn branch_pages_describe_their_branch() {
    let treehouse = branch_site();
    assert!(contents_are_ok(&treehouse));
    assert_eq!(
        branch_page(&treehouse, "a"),
        Some((
            "page".to_owned(),
            "<meta property=\"og:description\" content=\"&lt;hello&gt; world\">".to_owned()
        ))
    );
    assert_eq!(branch_page(&treehouse, "b"), None);
    assert_eq!(branch_page(&treehouse, "c"), None);
}

#[test]
fn branch_contents_outside_their_file_are_found() {
    let mut treehouse = branch_site();
    treehouse.tree.add_branch(branch(0, "far", 2..100));
    assert!(!contents_are_ok(&treehouse));
}

#[test]
fn underscored_templates_are_partials() {
    assert!(is_standalone_template("index.hbs"));
    assert!(is_standalone_template("pages/about.hbs"));
    assert!(!is_standalone_template("_tree.hbs"));
    assert!(!is_standalone_template("components/_head.hbs"));
    assert!(is_standalone_template("_parts/page.hbs"));
    assert!(is_standalone_template("dir/"));
}

#[test]
fn pages_use_their_template_or_the_tree_one() {
    let mut attributes = RootAttributes::default();
    assert_eq!(template_name(&attributes), "_tree.hbs");
    attributes.template = Some("_custom.hbs".to_owned());
    assert_eq!(template_name(&attributes), "_custom.hbs");
}

#[test]
fn page_data_comes_from_the_root_attributes() {
    let config = config();
    let treehouse = branch_site();
    let attributes = RootAttributes {
        template: None,
        title: "A page".to_owned(),
        description: None,
        thumbnail: Some(Picture { id: "cat".to_owned(), alt: Some("a cat".to_owned()) }),
        scripts: vec!["s.js".to_owned()],
        styles: vec!["a.css".to_owned(), "b.css".to_owned()],
        feed: None,
    };
    let page = page_of(&config, &treehouse, 0, &attributes, "<crumbs>".to_owned(), "<tree>".to_owned());
    assert_eq!(page.title, "A page");
    let thumbnail = page.thumbnail.unwrap();
    assert_eq!(thumbnail.url, "https://example.org/static/pic/cat-1.png");
    assert_eq!(thumbnail.alt, Some("a cat".to_owned()));
    assert_eq!(page.scripts, vec!["s.js".to_owned()]);
    assert_eq!(page.styles, vec!["a.css".to_owned(), "b.css".to_owned()]);
    assert_eq!(page.breadcrumbs, "<crumbs>");
    assert_eq!(page.tree_path, Some("page".to_owned()));
    assert_eq!(page.tree, "<tree>");
    let loose = page_of(&config, &treehouse, 1, &RootAttributes::default(), String::new(), String::new());
    assert!(loose.thumbnail.is_none());
    assert_eq!(loose.tree_path, None);
}

#[test]
fn feeds_list_the_top_level_branches() {
    let treehouse = branch_site();
    let mut roots = SemaRoots { attributes: RootAttributes::default(), branches: vec![SemaBranchId(1), SemaBranchId(0)] };
    assert!(feed_of(&treehouse, &roots).is_none());
    roots.attributes.feed = Some("news".to_owned());
    let (name, feed) = feed_of(&treehouse, &roots).unwrap();
    assert_eq!(name, "news");
    assert_eq!(feed.branches, vec!["b".to_owned(), "a".to_owned()]);
}

#[test]
fn template_errors_point_at_their_character() {
    let mut treehouse = Treehouse::new();
    let file_id = treehouse.add_file("page.hbs".to_owned(), None, "ab\ncd{{\nef".to_owned());
    let r = wrangle_handlebars_error_into_diagnostic(&mut treehouse, file_id, Some(1), Some(2), "unclosed".to_owned());
    assert_eq!(r, Ok(()));
    assert_eq!(treehouse.diagnostics.len(), 1);
    let d = &treehouse.diagnostics[0];
    assert_eq!(d.severity, Severity::Error);
    assert_eq!(d.code, Some("template".to_owned()));
    assert_eq!(d.message, "unclosed");
    assert_eq!(d.labels.len(), 1);
    assert_eq!(d.labels[0].style, LabelStyle::Primary);
    assert_eq!(d.labels[0].file_id, file_id);
    assert_eq!(d.labels[0].range, 5..6);
    assert_eq!(d.labels[0].message, "");
}

#[test]
fn template_errors_without_a_place_name_the_file() {
    let mut treehouse = Treehouse::new();
    let file_id = treehouse.add_file("page.hbs".to_owned(), None, "{{".to_owned());
    let r = wrangle_handlebars_error_into_diagnostic(&mut treehouse, file_id, None, Some(1), "broken".to_owned());
    assert_eq!(r, Err("template error in page.hbs: broken".to_owned()));
    assert!(treehouse.diagnostics.is_empty());
}

fn module(path: &str, contents: &[u8]) -> ModuleFile {
    ModuleFile { path: path.to_owned(), contents: contents.to_vec() }
}

fn hash8(contents: &[u8]) -> String {
    blake3::hash(contents).to_hex()[..8].to_owned()
}

#[test]
fn import_maps_name_modules_by_root_and_sort_them() {
    let roots = vec![
        ImportRoot {
            name: "treehouse".to_owned(),
            path: "static/js".to_owned(),
            modules: vec![module("zoo.js", b"z"), module("a/b.js", b"ab")],
        },
        ImportRoot { name: "lib".to_owned(), path: "vendor".to_owned(), modules: vec![module("x.js", b"x")] },
    ];
    let map = ImportMap::generate("https://example.org".to_owned(), &roots);
    let entries: Vec<(String, String)> = map.imports.into_iter().collect();
    assert_eq!(
        entries,
        vec![
            ("lib/x.js".to_owned(), format!("https://example.org/vendor/x.js?cache=b3-{}", hash8(b"x"))),
            (
                "treehouse/a/b.js".to_owned(),
                format!("https://example.org/static/js/a/b.js?cache=b3-{}", hash8(b"ab"))
            ),
            ("treehouse/zoo.js".to_owned(), format!("https://example.org/static/js/zoo.js?cache=b3-{}", hash8(b"z"))),
        ]
    );
}

#[test]
fn later_modules_of_the_same_name_win() {
    let roots = vec![
        ImportRoot { name: "a".to_owned(), path: "one".to_owned(), modules: vec![module("m.js", b"1")] },
        ImportRoot { name: "a".to_owned(), path: "two".to_owned(), modules: vec![module("m.js", b"2")] },
    ];
    let map = ImportMap::generate("s".to_owned(), &roots);
    assert_eq!(map.imports.len(), 1);
    assert_eq!(map.imports.get("a/m.js"), Some(&format!("s/two/m.js?cache=b3-{}", hash8(b"2"))));
    assert!(ImportMap::generate("s".to_owned(), &[]).imports.is_empty());
}

fn linking(id: &str, content: Content, children: Vec<SemaBranchId>) -> SemaBranch {
    SemaBranch {
        file_id: 0,
        indent_level: 0,
        kind: BranchKind::Collapsed,
        kind_span: 0..1,
        content: 1..2,
        html_id: id.to_owned(),
        attributes: Attributes { id: id.to_owned(), content, ..Attributes::default() },
        children,
    }
}

#[test]
fn trees_linked_from_nested_branches_are_reached() {
    let mut treehouse = Treehouse::new();
    let to_deep = treehouse.tree.add_branch(linking("to-deep", Content::Link("deep".to_owned()), vec![]));
    let holder = treehouse.tree.add_branch(linking("holder", Content::Inline, vec![to_deep]));
    let to_index = treehouse.tree.add_branch(linking("to-index", Content::Link("index".to_owned()), vec![]));
    let to_gone = treehouse.tree.add_branch(linking("to-gone", Content::Link("gone".to_owned()), vec![]));
    treehouse.roots.insert("index".to_owned(), SemaRoots { attributes: RootAttributes::default(), branches: vec![holder] });
    treehouse.roots.insert(
        "deep".to_owned(),
        SemaRoots { attributes: RootAttributes::default(), branches: vec![to_index, to_gone] },
    );
    treehouse.roots.insert("lonely".to_owned(), SemaRoots { attributes: RootAttributes::default(), branches: vec![] });
    let map = build_navigation_map(&treehouse, "index");
    assert_eq!(map.paths.get("deep"), Some(&vec!["index".to_owned(), "deep".to_owned()]));
    assert_eq!(map.paths.get("index"), Some(&vec!["index".to_owned()]));
    assert_eq!(map.paths.get("lonely"), None);
    assert_eq!(map.paths.get("gone"), None);
    assert_eq!(map.paths.entries().len(), 2);
}

#[test]
fn escaped_text_has_no_markup() {
    let text = "<a href=\"x\" title='y'>&</a>";
    let html = EscapeHtml(text).to_string();
    assert_eq!(html, "&lt;a href=&quot;x&quot; title=&apos;y&apos;&gt;&amp;&lt;/a&gt;");
    assert!(!html.contains(['<', '>', '"', '\'']));
    let attribute = EscapeAttribute(text).to_string();
    assert!(!attribute.contains('"'));
    assert_eq!(attribute, "<a href=&quot;x&quot; title='y'>&</a>");
}

#[test]
fn key_mazes_are_carved_perfect() {
    let mut rng = WyRand::new(11);
    let (maze, _) = key_maze(&mut rng);
    let mut empty = 0;
    for y in 0..maze.height {
        for x in 0..maze.width {
            let cell = maze.get((x, y));
            if x % 2 == 1 && y % 2 == 1 {
                assert_eq!(cell, Some(Cell::Empty));
            }
            if cell == Some(Cell::Empty) {
                empty += 1;
            }
        }
    }
    assert_eq!(empty, 2 * 5 * 517 - 1);
}
