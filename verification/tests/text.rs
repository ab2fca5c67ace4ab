use treehouse::code_block::{CodeBlockMode, LiterateCodeKind};
use treehouse::config::{pic_id_of, Config, Markup, StringMap};
use treehouse::escape::{write_attr, write_escape, write_text, EscapeAttribute, EscapeHtml};
use treehouse::mini_template::render;
use treehouse::serve::get_content_type;
use treehouse::text::{push_decimal, str_ends_with};

fn config() -> Config {
    let mut pics = StringMap::new();
    pics.insert_if_absent("cat".to_owned(), "cat-1.png".to_owned());
    pics.insert_if_absent("q".to_owned(), "a\"b.png".to_owned());
    Config {
        site: "https://example.org".to_owned(),
        user: StringMap::new(),
        defs: StringMap::new(),
        redirects: StringMap::new(),
        emoji: StringMap::new(),
        pics,
        markup: Markup::Markdown,
    }
}

#[test]
fn page_and_picture_addresses() {
    let config = config();
    assert_eq!(config.page_url("index"), "https://example.org/index");
    assert_eq!(config.pic_url("cat"), "https://example.org/static/pic/cat-1.png");
    assert_eq!(config.pic_url("dog"), "https://example.org/static/pic/404.png");
}

#[test]
fn string_map_keeps_the_first_value() {
    let mut map = StringMap::new();
    map.insert_if_absent("k".to_owned(), "1".to_owned());
    map.insert_if_absent("k".to_owned(), "2".to_owned());
    assert_eq!(map.get("k").map(|s| s.as_str()), Some("1"));
    assert!(map.contains_key("k"));
    assert!(!map.contains_key("x"));
}

#[test]
fn picture_ids_stop_at_the_first_dash() {
    assert_eq!(pic_id_of("cat-2-large"), "cat");
    assert_eq!(pic_id_of("plain"), "plain");
    assert_eq!(pic_id_of("-x"), "");
}

#[test]
fn picture_and_emoji_files_by_extension() {
    assert!(Config::is_pic_file(Some("jpeg")));
    assert!(Config::is_pic_file(Some("webp")));
    assert!(!Config::is_pic_file(Some("gif")));
    assert!(!Config::is_pic_file(None));
    assert!(Config::is_emoji_file(Some("svg")));
    assert!(!Config::is_emoji_file(Some("jpg")));
}

#[test]
fn pictures_are_registered_once_by_id() {
    let mut config = config();
    config.add_pic("dog-1", "dog-1.png".to_owned());
    config.add_pic("dog-2", "dog-2.png".to_owned());
    assert_eq!(config.pics.get("dog").map(|s| s.as_str()), Some("dog-1.png"));
    config.add_emoji("smile", "smile.png".to_owned());
    assert_eq!(config.emoji.get("smile").map(|s| s.as_str()), Some("smile.png"));
}

#[test]
fn html_escaping() {
    assert_eq!(EscapeHtml("<a href='x'>&\"</a>").to_string(), "&lt;a href=&apos;x&apos;&gt;&amp;&quot;&lt;/a&gt;");
    assert_eq!(EscapeAttribute("a\"b<c>").to_string(), "a&quot;b<c>");
    let mut out = String::new();
    write_escape("<\"&>", false, &mut out);
    assert_eq!(out, "&lt;\"&amp;&gt;");
    let mut out = String::new();
    write_text("\"x\"", &mut out);
    assert_eq!(out, "\"x\"");
    let mut out = String::new();
    write_attr("\"x\"", &mut out);
    assert_eq!(out, "&quot;x&quot;");
}

#[test]
fn templates_expand_pictures() {
    let config = config();
    assert_eq!(render(&config, "see {% pic cat %}!"), "see https://example.org/static/pic/cat-1.png!");
    assert_eq!(render(&config, "{% pic q %}"), "https://example.org/static/pic/a&quot;b.png");
    assert_eq!(render(&config, "{%! pic q %}"), "! pic q %}");
}

#[test]
fn unknown_templates_lose_only_their_opening() {
    let config = config();
    assert_eq!(render(&config, "{% nope %} and 50% of {it}"), " nope %} and 50% of {it}");
    assert_eq!(render(&config, "{% pic cat"), " pic cat");
    assert_eq!(render(&config, "plain {text}"), "plain {text}");
    assert_eq!(render(&config, ""), "");
}

#[test]
fn the_joke_template_is_escaped_unless_asked_not_to() {
    let config = config();
    assert_eq!(render(&config, "{% c++ %}"), "&lt;script&gt;alert(1)&lt;/script&gt;");
}

#[test]
fn code_block_modes() {
    assert_eq!(CodeBlockMode::parse(""), CodeBlockMode::PlainText);
    assert_eq!(CodeBlockMode::parse("rust"), CodeBlockMode::SyntaxHighlightOnly { language: "rust" });
    assert_eq!(
        CodeBlockMode::parse("rust prog"),
        CodeBlockMode::LiterateProgram { language: "rust", kind: LiterateCodeKind::Input, program_name: "prog" }
    );
    assert_eq!(
        CodeBlockMode::parse("output prog pic-1 x"),
        CodeBlockMode::LiterateProgram {
            language: "output",
            kind: LiterateCodeKind::Output { placeholder_pic_id: "pic-1 x" },
            program_name: "prog"
        }
    );
    assert_eq!(
        CodeBlockMode::parse("output prog"),
        CodeBlockMode::LiterateProgram {
            language: "output",
            kind: LiterateCodeKind::Output { placeholder_pic_id: "" },
            program_name: "prog"
        }
    );
    assert_eq!(CodeBlockMode::parse("rust prog").highlighting_language(), Some("rust"));
    assert_eq!(CodeBlockMode::parse("js").highlighting_language(), Some("js"));
    assert_eq!(CodeBlockMode::parse("").highlighting_language(), None);
}

#[test]
fn content_types() {
    assert_eq!(get_content_type("index.html"), Some("text/html"));
    assert_eq!(get_content_type("a/b.js"), Some("text/javascript"));
    assert_eq!(get_content_type("font.woff2"), Some("font/woff2"));
    assert_eq!(get_content_type("logo.svg"), Some("image/svg+xml"));
    assert_eq!(get_content_type("pic.png"), None);
    assert_eq!(get_content_type("html"), None);
}

#[test]
fn decimal_numbers() {
    let mut s = String::from("n=");
    push_decimal(&mut s, 0);
    s.push(' ');
    push_decimal(&mut s, 1234567);
    assert_eq!(s, "n=0 1234567");
    assert!(str_ends_with("a.tree", ".tree"));
    assert!(!str_ends_with("tree", ".tree"));
}
