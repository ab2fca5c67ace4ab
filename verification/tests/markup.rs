use treehouse::branch_html::{branch_markups, branch_to_html, branches_to_html, markup_text_of, report_djot_notes};
use treehouse::config::{Config, Markup, StringMap};
use treehouse::djot::djot_to_html;
use treehouse::highlight::CompiledSyntax;
use treehouse::markdown::{markdown_to_html, MdContext, RenderData};
use treehouse::name_map::NameMap;
use treehouse::pull::BranchKind;
use treehouse::sema::{Attributes, Content, SemaBranch, SemaBranchId, Stage, Treehouse};

fn config(markup: Markup) -> Config {
    let mut defs = StringMap::new();
    defs.insert_if_absent("rust".to_owned(), "https://rust-lang.org".to_owned());
    let mut pics = StringMap::new();
    pics.insert_if_absent("cat".to_owned(), "cat-1.png".to_owned());
    let mut emoji = StringMap::new();
    emoji.insert_if_absent("smile".to_owned(), "smile.png".to_owned());
    Config {
        site: "https://example.org".to_owned(),
        user: StringMap::new(),
        defs,
        redirects: StringMap::new(),
        emoji,
        pics,
        markup,
    }
}

fn data() -> RenderData {
    let mut static_urls = NameMap::new();
    static_urls.insert("emoji/smile.png".to_owned(), "/static/emoji/smile.png?v=1".to_owned());
    static_urls.insert("pic/cat-1.png".to_owned(), "/static/pic/cat-1.png?v=2".to_owned());
    let mut image_sizes = NameMap::new();
    image_sizes.insert("static/emoji/smile.png".to_owned(), (16, 16));
    RenderData { static_urls, image_sizes, pic_sizes: NameMap::new() }
}

fn markdown(text: &str) -> String {
    let config = config(Markup::Markdown);
    let syntaxes: NameMap<CompiledSyntax> = NameMap::new();
    let treehouse = Treehouse::new();
    let data = data();
    let ctx = MdContext { config: &config, syntaxes: &syntaxes, treehouse: &treehouse, page_id: "page", data: &data };
    let mut out = String::new();
    markdown_to_html(&mut out, ctx, text);
    out
}

fn djot(text: &str) -> (bool, String, usize) {
    let config = config(Markup::Djot);
    let syntaxes: NameMap<CompiledSyntax> = NameMap::new();
    let treehouse = Treehouse::new();
    let data = data();
    let ctx = MdContext { config: &config, syntaxes: &syntaxes, treehouse: &treehouse, page_id: "page", data: &data };
    let mut out = String::new();
    let mut notes = Vec::new();
    let ok = djot_to_html(&mut out, &mut notes, ctx, text);
    (ok, out, notes.len())
}

#[test]
fn markdown_headings_and_lists() {
    assert_eq!(markdown("# Hello\n\n* a\n* b\n"), "<h1>Hello</h1>\n<ul>\n<li>a</li>\n<li>b</li>\n</ul>\n");
}

#[test]
fn markdown_inline_elements() {
    assert_eq!(markdown("a *b* `c` ~~d~~"), "<p>a <em>b</em> <code>c</code> <del>d</del></p>\n");
}

#[test]
fn markdown_emoji() {
    assert_eq!(markdown(":frown: hi"), "<p>:frown: hi</p>\n");
    assert_eq!(
        markdown(":smile:"),
        "<p><img data-cast=\"emoji\" title=\":smile:\" src=\"/static/emoji/smile.png?v=1\" alt=\"smile\" width=\"16\" height=\"16\"></p>\n"
    );
}

#[test]
fn markdown_reference_links_resolve() {
    assert_eq!(markdown("[Rust][def:rust]"), "<p><a href=\"https://rust-lang.org\">Rust</a></p>\n");
    assert_eq!(markdown("[a page][page:a/b]"), "<p><a href=\"https://example.org/a/b\">a page</a></p>\n");
}

#[test]
fn markdown_code_blocks() {
    assert_eq!(markdown("```rust\nfn x\n```\n"), "<pre><code class=\"language-rust\">fn x\n</code></pre>");
    assert_eq!(
        markdown("```output prog cat\nhi\n```\n"),
        "<th-literate-program data-mode=\"output\" data-program=\"page:prog\" data-language=\"output\" role=\"code\"><img class=\"placeholder-image\" loading=\"lazy\" src=\"https://example.org/static/pic/cat-1.png\"><pre class=\"placeholder-console\">hi\n</pre></th-literate-program>"
    );
    assert_eq!(markdown("    indented\n"), "<pre><code>indented\n</code></pre>\n");
}

#[test]
fn markdown_tables() {
    assert_eq!(
        markdown("| a | b |\n|:--|--:|\n| 1 | 2 |\n"),
        "<table><thead><tr><th style=\"text-align: left\">a</th><th style=\"text-align: right\">b</th></tr></thead><tbody>\n<tr><td style=\"text-align: left\">1</td><td style=\"text-align: right\">2</td></tr>\n</tbody></table>\n"
    );
}

#[test]
fn markdown_pictures_take_their_text_as_alt() {
    assert_eq!(
        markdown("![alt *x*](a.png \"T\")"),
        "<p><img class=\"pic\" src=\"a.png\" alt=\"alt x\" title=\"T\" /></p>\n"
    );
}

#[test]
fn djot_paragraphs_and_emphasis() {
    assert_eq!(djot("Hello *world*"), (true, "<p>Hello <strong>world</strong></p>".to_owned(), 0));
    assert_eq!(djot("a\n\nb"), (true, "<p>a</p>\n<p>b</p>".to_owned(), 0));
}

#[test]
fn djot_headings_leave_out_sections() {
    assert_eq!(djot("# Title"), (true, "<h1>Title</h1>".to_owned(), 0));
}

#[test]
fn djot_symbols() {
    assert_eq!(
        djot("hi :frown:"),
        (
            true,
            "<p>hi <span class=\"th-emoji-unknown\" title=\"this emoji does not exist\u{2026} yet!\">:frown:</span></p>"
                .to_owned(),
            0
        )
    );
    assert_eq!(
        djot(":smile:"),
        (
            true,
            "<p><img data-cast=\"emoji\" title=\":smile:\" alt=\"smile\" src=\"/static/emoji/smile.png?v=1\" width=\"16\" height=\"16\"></p>"
                .to_owned(),
            0
        )
    );
}

#[test]
fn djot_unresolved_references_resolve_by_kind() {
    assert_eq!(djot("[a page][page:a]"), (true, "<p><a href=\"https://example.org/a\">a page</a></p>".to_owned(), 0));
    assert_eq!(djot("[x](y.html)"), (true, "<p><a href=\"y.html\">x</a></p>".to_owned(), 0));
}

fn branch(id: &str, content: std::ops::Range<usize>, children: Vec<SemaBranchId>) -> SemaBranch {
    SemaBranch {
        file_id: 0,
        indent_level: 0,
        kind: BranchKind::Expanded,
        kind_span: 0..1,
        content,
        html_id: format!("page:{id}"),
        attributes: Attributes { id: id.to_owned(), ..Attributes::default() },
        children,
    }
}

#[test]
fn branches_become_list_items() {
    let config = config(Markup::Markdown);
    let mut treehouse = Treehouse::new();
    let leaf = treehouse.tree.add_branch(branch("x", 0..0, vec![]));
    let parent = treehouse.tree.add_branch(branch("p", 0..0, vec![leaf]));
    let markups = vec!["<p>hi</p>".to_owned(), "P".to_owned()];
    let mut s = String::new();
    branch_to_html(&mut s, &treehouse, &config, false, &markups, leaf);
    let leaf_html = "<li data-cast=\"b\" class=\"leaf\" id=\"page:x\"><div class=\"branch-container\"><th-bp></th-bp><th-bc><p>hi</p></th-bc><th-bb><a class=\"icon icon-permalink\" href=\"/b?x\" title=\"permalink\"></a></th-bb></div></li>";
    assert_eq!(s, leaf_html);
    let mut s = String::new();
    branches_to_html(&mut s, &treehouse, &config, false, &markups, &vec![parent]);
    assert_eq!(
        s,
        format!(
            "<ul><li data-cast=\"b\" class=\"branch\" id=\"page:p\"><details open><summary class=\"branch-container\"><th-bp></th-bp><th-bc>P</th-bc><th-bb><a class=\"icon icon-permalink\" href=\"/b?p\" title=\"permalink\"></a></th-bb></summary><ul>{leaf_html}</ul></details></li></ul>"
        )
    );
}

#[test]
fn linked_branches_and_drafts() {
    let config = config(Markup::Markdown);
    let mut treehouse = Treehouse::new();
    let mut linked = branch("l", 0..0, vec![]);
    linked.attributes.content = Content::Link("other".to_owned());
    linked.kind = BranchKind::Collapsed;
    let linked = treehouse.tree.add_branch(linked);
    let mut draft = branch("d", 0..0, vec![]);
    draft.attributes.stage = Stage::Draft;
    let draft = treehouse.tree.add_branch(draft);
    let markups = vec![String::new(), "D".to_owned()];
    let mut s = String::new();
    branch_to_html(&mut s, &treehouse, &config, false, &markups, linked);
    assert_eq!(
        s,
        "<li data-cast=\"b-linked\" class=\"branch\" id=\"page:l\" data-th-link=\"other\"><details><summary class=\"branch-container\"><th-bp></th-bp><th-bc><noscript><a class=\"navigate icon-go\" href=\"https://example.org/other\">Go to linked tree: <code>other</code></a></noscript></th-bc><th-bb><a class=\"icon icon-go\" href=\"https://example.org/other\" title=\"linked tree\"></a><a class=\"icon icon-permalink\" href=\"/b?l\" title=\"permalink\"></a></th-bb></summary><ul></ul></details></li>"
    );
    let mut s = String::new();
    branch_to_html(&mut s, &treehouse, &config, false, &markups, draft);
    assert_eq!(s, "");
    branch_to_html(&mut s, &treehouse, &config, true, &markups, draft);
    assert!(s.starts_with("<li data-cast=\"b\" class=\"leaf draft\" id=\"page:d\">"));
}

#[test]
fn markups_of_a_file() {
    let config = config(Markup::Markdown);
    let syntaxes: NameMap<CompiledSyntax> = NameMap::new();
    let mut treehouse = Treehouse::new();
    let file_id = treehouse.add_file("page.tree".to_owned(), Some("page".to_owned()), "- hello\n  world\n".to_owned());
    let b = treehouse.tree.add_branch(branch("x", 2..15, vec![]));
    assert_eq!(markup_text_of(&treehouse, &config, file_id, b).as_deref(), Some("hello\n  world\n"));
    let data = data();
    let ctx = MdContext { config: &config, syntaxes: &syntaxes, treehouse: &treehouse, page_id: "page", data: &data };
    let mut notes = Vec::new();
    let markups = branch_markups(ctx, false, file_id, &mut notes).unwrap();
    assert_eq!(markups, vec!["<p>hello\nworld</p>\n".to_owned()]);
    let outside = treehouse.tree.add_branch(branch("y", 2..40, vec![]));
    assert_eq!(markup_text_of(&treehouse, &config, file_id, outside), None);
}

#[test]
fn djot_notes_become_diagnostics() {
    let mut treehouse = Treehouse::new();
    report_djot_notes(&mut treehouse, 3, &vec![(true, 1..4), (false, 5..9)]);
    assert_eq!(treehouse.diagnostics.len(), 2);
    assert_eq!(treehouse.diagnostics[0].message, "Djot footnotes are unsupported");
    assert_eq!(treehouse.diagnostics[1].message, "Djot footnotes are not supported");
    assert_eq!(treehouse.diagnostics[1].labels[0].range, 5..9);
    assert_eq!(treehouse.diagnostics[1].labels[0].file_id, 3);
    assert_eq!(treehouse.diagnostics[0].code.as_deref(), Some("djot"));
}

#[test]
fn djot_reserved_attribute_keys_are_not_written() {
    let (ok, html, _) = djot("{#a :program=\"x\"}\nhi");
    assert!(ok);
    assert!(html.contains("id=\"a\""));
    assert!(!html.contains(":program"));
    assert!(!html.contains("\"x\""));
}
