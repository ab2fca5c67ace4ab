use treehouse::ast::Roots;
use treehouse::breadcrumbs::breadcrumbs_to_html;
use treehouse::config::{Config, Markup, StringMap};
use treehouse::name_map::NameMap;
use treehouse::navmap::{build_navigation_map, NavigationMapBuilder};
use treehouse::pull::{Attributes as AttributeSpans, BranchKind, Parser};
use treehouse::sema::{
    parse_tree_with_diagnostics, toml_error_to_diagnostic, Attributes, Classes, Content, LabelStyle,
    ParsedAttributes, Picture, RootAttributes, SemaBranch, SemaBranchId, SemaRoots, Severity, Stage,
    TomlError, TomlParseError, Treehouse,
};

fn config() -> Config {
    let mut pics = StringMap::new();
    pics.insert_if_absent("cat".to_owned(), "cat-1.png".to_owned());
    Config {
        site: "https://example.org".to_owned(),
        user: StringMap::new(),
        defs: StringMap::new(),
        redirects: StringMap::new(),
        emoji: StringMap::new(),
        pics,
        markup: Markup::Markdown,
    }
}

fn attributes(id: &str) -> Attributes {
    Attributes { id: id.to_owned(), ..Attributes::default() }
}

fn parse(source: &str) -> Roots {
    Roots::parse(&mut Parser { input: source, position: 0 }).unwrap()
}

fn treehouse_with(source: &str) -> (Treehouse, usize) {
    let mut treehouse = Treehouse::new();
    let file_id = treehouse.add_file("page.tree".to_owned(), Some("page".to_owned()), source.to_owned());
    (treehouse, file_id)
}

#[test]
fn name_map_reads_back_what_was_written() {
    let mut map: NameMap<u32> = NameMap::new();
    assert_eq!(map.insert("a".to_owned(), 1), None);
    assert_eq!(map.insert("b".to_owned(), 2), None);
    assert_eq!(map.insert("a".to_owned(), 3), Some(1));
    assert_eq!(map.get("a"), Some(&3));
    assert_eq!(map.get("b"), Some(&2));
    assert_eq!(map.get("c"), None);
    assert!(map.contains_key("b"));
    assert_eq!(map.entries().len(), 2);
}

#[test]
fn files_are_registered_in_order() {
    let mut treehouse = Treehouse::new();
    let a = treehouse.add_file("a.tree".to_owned(), Some("a".to_owned()), "- x".to_owned());
    let b = treehouse.add_file("b.toml".to_owned(), None, "k = 1".to_owned());
    assert_eq!((a, b), (0, 1));
    assert_eq!(treehouse.source(b), "k = 1");
    assert_eq!(treehouse.filename(a), "a.tree");
    assert_eq!(treehouse.tree_path(a), Some("a"));
    assert_eq!(treehouse.tree_path(b), None);
    assert!(treehouse.next_missingno().is_some());
}

#[test]
fn toml_errors_point_into_the_file() {
    let diagnostic = toml_error_to_diagnostic(TomlError {
        message: "bad".to_owned(),
        span: Some(2..4),
        file_id: 7,
        input_range: 10..20,
    });
    assert_eq!(diagnostic.severity, Severity::Error);
    assert_eq!(diagnostic.code.as_deref(), Some("toml"));
    assert_eq!(diagnostic.message, "bad");
    assert_eq!(diagnostic.labels.len(), 1);
    assert_eq!(diagnostic.labels[0].range, 12..14);
    assert_eq!(diagnostic.labels[0].file_id, 7);
    let without_span = toml_error_to_diagnostic(TomlError {
        message: "bad".to_owned(),
        span: None,
        file_id: 0,
        input_range: 0..1,
    });
    assert!(without_span.labels.is_empty());
}

#[test]
fn attributes_with_an_id_are_kept() {
    let source = "% id = \"x\"\n- a\n";
    let roots = parse(source);
    let (mut treehouse, file_id) = treehouse_with(source);
    let parsed = SemaBranch::parse_attributes(&mut treehouse, file_id, &roots.branches[0], Ok(attributes("x")));
    assert_eq!(parsed.unwrap().id, "x");
    assert!(treehouse.diagnostics.is_empty());
}

#[test]
fn a_branch_without_id_gets_a_generated_one() {
    let source = "- a\n";
    let roots = parse(source);
    let (mut treehouse, file_id) = treehouse_with(source);
    let parsed = SemaBranch::parse_attributes(&mut treehouse, file_id, &roots.branches[0], Ok(attributes("ignored")))
        .unwrap();
    assert!(parsed.id.starts_with("treehouse-missingno-"));
    assert_eq!(treehouse.diagnostics.len(), 1);
    let diagnostic = &treehouse.diagnostics[0];
    assert_eq!(diagnostic.severity, Severity::Warning);
    assert_eq!(diagnostic.code.as_deref(), Some("attr"));
    assert_eq!(diagnostic.message, "branch does not have an `id` attribute");
    assert_eq!(diagnostic.labels[0].range, 0..1);
    assert_eq!(diagnostic.labels[0].style, LabelStyle::Primary);
    assert_eq!(
        diagnostic.notes[0],
        format!(
            "note: a generated id `{}` will be used, but this id is unstable and will not persist across generations",
            parsed.id
        )
    );
    assert_eq!(diagnostic.notes[1], "help: run `treehouse fix page.tree` to add missing ids to branches");
}

#[test]
fn attributes_that_do_not_parse_are_reported() {
    let source = "% id = \n- a\n";
    let roots = parse(source);
    let (mut treehouse, file_id) = treehouse_with(source);
    let parsed = SemaBranch::parse_attributes(
        &mut treehouse,
        file_id,
        &roots.branches[0],
        Err(TomlParseError { message: "expected a value".to_owned(), span: Some(5..6) }),
    )
    .unwrap();
    assert_eq!(parsed, Attributes::default());
    assert_eq!(treehouse.diagnostics.len(), 1);
    assert_eq!(treehouse.diagnostics[0].code.as_deref(), Some("toml"));
    assert_eq!(treehouse.diagnostics[0].labels[0].range, 6..7);
}

#[test]
fn expanded_links_are_reported() {
    let source = "% id = \"x\"\n- a\n";
    let roots = parse(source);
    let (mut treehouse, file_id) = treehouse_with(source);
    let linked = Attributes { content: Content::Link("other".to_owned()), ..attributes("x") };
    let parsed = SemaBranch::parse_attributes(&mut treehouse, file_id, &roots.branches[0], Ok(linked)).unwrap();
    assert_eq!(parsed.content, Content::Link("other".to_owned()));
    assert_eq!(treehouse.diagnostics.len(), 1);
    assert_eq!(treehouse.diagnostics[0].message, "`content.link` branch is expanded by default");
    assert_eq!(treehouse.diagnostics[0].labels[0].range, 11..12);
}

#[test]
fn branches_are_analysed_children_first() {
    let source = "% id = \"a\"\n- a\n  % id = \"b\"\n  + b\n";
    let roots = parse(source);
    let (mut treehouse, file_id) = treehouse_with(source);
    let parsed = ParsedAttributes {
        attributes: Ok(attributes("a")),
        children: vec![ParsedAttributes { attributes: Ok(attributes("b")), children: vec![] }],
    };
    let id = SemaBranch::from_branch(&mut treehouse, file_id, &roots.branches[0], parsed).unwrap();
    assert_eq!(id, SemaBranchId(1));
    let branch = treehouse.tree.branch(id);
    assert_eq!(branch.html_id, "page:a");
    assert_eq!(branch.children, vec![SemaBranchId(0)]);
    let child = treehouse.tree.branch(SemaBranchId(0));
    assert_eq!(child.kind, BranchKind::Collapsed);
    assert_eq!(child.html_id, "page:b");
    assert_eq!(treehouse.branches_by_named_id.get("b"), Some(&SemaBranchId(0)));
    assert!(treehouse.diagnostics.is_empty());
}

#[test]
fn shared_ids_are_reported_with_both_branches() {
    let source = "% id = \"same\"\n- a\n% id = \"same\"\n- b\n";
    let roots = parse(source);
    let (mut treehouse, file_id) = treehouse_with(source);
    let sema = SemaRoots::from_roots(
        &mut treehouse,
        &config(),
        file_id,
        &None,
        Ok(RootAttributes::default()),
        &roots,
        vec![
            ParsedAttributes { attributes: Ok(attributes("same")), children: vec![] },
            ParsedAttributes { attributes: Ok(attributes("same")), children: vec![] },
        ],
    )
    .unwrap();
    assert_eq!(sema.branches, vec![SemaBranchId(0), SemaBranchId(1)]);
    assert_eq!(sema.attributes.title, "page");
    assert_eq!(treehouse.branches_by_named_id.get("same"), Some(&SemaBranchId(1)));
    assert_eq!(treehouse.diagnostics.len(), 1);
    let diagnostic = &treehouse.diagnostics[0];
    assert_eq!(diagnostic.message, "two branches share the same id `same`");
    assert_eq!(diagnostic.labels[0].range, 32..33);
    assert_eq!(diagnostic.labels[1].range, 14..15);
}

#[test]
fn root_attributes_are_checked() {
    let source = "%% thumbnail.id = \"dog\"\n- a\n";
    let (mut treehouse, file_id) = treehouse_with(source);
    let spans = Some(AttributeSpans { percent: 0..2, data: 2..24 });
    let parsed = RootAttributes {
        thumbnail: Some(Picture { id: "dog".to_owned(), alt: None }),
        ..RootAttributes::default()
    };
    let attributes = SemaRoots::parse_attributes(&mut treehouse, &config(), file_id, &spans, Ok(parsed));
    assert_eq!(attributes.title, "page");
    assert_eq!(treehouse.diagnostics.len(), 2);
    assert_eq!(treehouse.diagnostics[0].message, "thumbnail without alt text");
    assert_eq!(treehouse.diagnostics[1].message, "thumbnail picture with id 'dog' does not exist");
    assert_eq!(treehouse.diagnostics[1].labels[0].range, 0..2);

    let (mut treehouse, file_id) = treehouse_with(source);
    let parsed = RootAttributes {
        title: "Cats".to_owned(),
        thumbnail: Some(Picture { id: "cat".to_owned(), alt: Some("a cat".to_owned()) }),
        ..RootAttributes::default()
    };
    let attributes = SemaRoots::parse_attributes(&mut treehouse, &config(), file_id, &spans, Ok(parsed));
    assert_eq!(attributes.title, "Cats");
    assert!(treehouse.diagnostics.is_empty());
}

#[test]
fn trees_that_do_not_parse_are_reported() {
    let (mut treehouse, file_id) = treehouse_with("  - a\n");
    assert!(parse_tree_with_diagnostics(&mut treehouse, file_id).is_err());
    assert_eq!(treehouse.diagnostics.len(), 1);
    assert_eq!(treehouse.diagnostics[0].code.as_deref(), Some("tree"));
    assert_eq!(treehouse.diagnostics[0].message, "root branches must not be indented");
    assert_eq!(treehouse.diagnostics[0].labels[0].range, 2..3);
    let (mut treehouse, file_id) = treehouse_with("- a\n");
    assert_eq!(parse_tree_with_diagnostics(&mut treehouse, file_id).unwrap().branches.len(), 1);
}

fn leaf(treehouse: &mut Treehouse, id: &str, content: Content) -> SemaBranchId {
    treehouse.tree.add_branch(SemaBranch {
        file_id: 0,
        indent_level: 0,
        kind: BranchKind::Collapsed,
        kind_span: 0..1,
        content: 1..2,
        html_id: id.to_owned(),
        attributes: Attributes {
            id: id.to_owned(),
            content,
            do_not_persist: false,
            classes: Classes { branch: String::new(), branch_children: String::new() },
            template: false,
            stage: Stage::Public,
        },
        children: vec![],
    })
}

fn linked_trees() -> Treehouse {
    let mut treehouse = Treehouse::new();
    let to_a = leaf(&mut treehouse, "to-a", Content::Link("a".to_owned()));
    let to_b = leaf(&mut treehouse, "to-b", Content::Link("a/b".to_owned()));
    let back = leaf(&mut treehouse, "back", Content::Link("index".to_owned()));
    treehouse.roots.insert(
        "index".to_owned(),
        SemaRoots { attributes: RootAttributes::default(), branches: vec![to_a] },
    );
    treehouse.roots.insert(
        "a".to_owned(),
        SemaRoots { attributes: RootAttributes::default(), branches: vec![to_b, back] },
    );
    treehouse.roots.insert("a/b".to_owned(), SemaRoots { attributes: RootAttributes::default(), branches: vec![] });
    treehouse
}

#[test]
fn navigation_paths_lead_from_the_root() {
    let treehouse = linked_trees();
    let map = build_navigation_map(&treehouse, "index");
    assert_eq!(map.paths.get("index"), Some(&vec!["index".to_owned()]));
    assert_eq!(map.paths.get("a"), Some(&vec!["index".to_owned(), "a".to_owned()]));
    assert_eq!(
        map.paths.get("a/b"),
        Some(&vec!["index".to_owned(), "a".to_owned(), "a/b".to_owned()])
    );
    assert_eq!(map.paths.entries().len(), 3);
    assert!(build_navigation_map(&treehouse, "missing").paths.entries().is_empty());
}

#[test]
fn navigation_builder_records_open_trees() {
    let mut builder = NavigationMapBuilder::new();
    builder.enter_tree("index".to_owned());
    builder.enter_tree("x".to_owned());
    builder.exit_tree();
    builder.enter_tree("y".to_owned());
    let map = builder.finish();
    assert_eq!(map.paths.get("x"), Some(&vec!["index".to_owned(), "x".to_owned()]));
    assert_eq!(map.paths.get("y"), Some(&vec!["index".to_owned(), "y".to_owned()]));
}

#[test]
fn breadcrumbs_link_the_way_to_a_page() {
    let treehouse = linked_trees();
    let map = build_navigation_map(&treehouse, "index");
    let config = config();
    assert_eq!(
        breadcrumbs_to_html(&config, &map, "a/b"),
        "<li class=\"breadcrumb\"><a href=\"https://example.org/a.html\">/a</a></li>\
         <li class=\"breadcrumb\"><a href=\"https://example.org/a/b.html\">b</a></li>"
    );
    assert_eq!(breadcrumbs_to_html(&config, &map, "index"), "");
    assert_eq!(breadcrumbs_to_html(&config, &map, "elsewhere"), "");
}

#[test]
fn generated_ids_are_ulids() {
    let mut treehouse = Treehouse::new();
    let id = treehouse.next_missingno().unwrap();
    assert_eq!(id.len(), 26);
    assert!(id.chars().all(|c| c.is_ascii_digit() || (c.is_ascii_uppercase() && !"ILOU".contains(c))));
    assert_ne!(treehouse.next_missingno().unwrap(), id);
}

#[test]
fn links_with_children_are_errors() {
    let source = "% id = \"x\"\n+ a\n  - b\n";
    let roots = parse(source);
    let (mut treehouse, file_id) = treehouse_with(source);
    let linked = Attributes { content: Content::Link("other".to_owned()), ..attributes("x") };
    SemaBranch::parse_attributes(&mut treehouse, file_id, &roots.branches[0], Ok(linked)).unwrap();
    assert_eq!(treehouse.diagnostics.len(), 1);
    let d = &treehouse.diagnostics[0];
    assert_eq!(d.severity, Severity::Error);
    assert_eq!(d.code.as_deref(), Some("attr"));
    assert_eq!(d.message, "`content.link` branch must not contain children");
    assert_eq!(d.labels[0].range, 11..12);

    let source = "% id = \"y\"\n- a\n  - b\n";
    let roots = parse(source);
    let (mut treehouse, file_id) = treehouse_with(source);
    let linked = Attributes { content: Content::Link("other".to_owned()), ..attributes("y") };
    SemaBranch::parse_attributes(&mut treehouse, file_id, &roots.branches[0], Ok(linked)).unwrap();
    let messages: Vec<&str> = treehouse.diagnostics.iter().map(|d| d.message.as_str()).collect();
    assert_eq!(
        messages,
        vec!["`content.link` branch is expanded by default", "`content.link` branch must not contain children"]
    );
}

#[test]
fn generated_ids_carry_a_ulid() {
    let source = "- a\n";
    let roots = parse(source);
    let (mut treehouse, file_id) = treehouse_with(source);
    let parsed = SemaBranch::parse_attributes(&mut treehouse, file_id, &roots.branches[0], Ok(Attributes::default()))
        .unwrap();
    let ulid = parsed.id.strip_prefix("treehouse-missingno-").unwrap();
    assert_eq!(ulid.len(), 26);
}

#[test]
fn a_parent_sharing_its_childs_id_is_reported_against_the_child() {
    let source = "% id = \"x\"\n- a\n  % id = \"x\"\n  - b\n";
    let roots = parse(source);
    let (mut treehouse, file_id) = treehouse_with(source);
    let parsed = ParsedAttributes {
        attributes: Ok(attributes("x")),
        children: vec![ParsedAttributes { attributes: Ok(attributes("x")), children: vec![] }],
    };
    let id = SemaBranch::from_branch(&mut treehouse, file_id, &roots.branches[0], parsed).unwrap();
    assert_eq!(id, SemaBranchId(1));
    assert_eq!(treehouse.branches_by_named_id.get("x"), Some(&SemaBranchId(1)));
    assert_eq!(treehouse.diagnostics.len(), 1);
    let diagnostic = &treehouse.diagnostics[0];
    assert_eq!(diagnostic.message, "two branches share the same id `x`");
    assert_eq!(diagnostic.labels[0].range, 11..12);
    assert_eq!(diagnostic.labels[1].range, 30..31);
}
