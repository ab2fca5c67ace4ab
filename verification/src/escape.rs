//! Escaping text for HTML: character by character replacement of the characters that HTML
//! gives a meaning to.
use vstd::prelude::*;
use vstd::string::*;

use crate::text::chars_of;

verus! {

/// `s` with every character replaced by what `f` makes of it.
pub open spec fn flat_map_chars(s: Seq<char>, f: spec_fn(char) -> Seq<char>) -> Seq<char>
    decreases s.len(),
{
    if s.len() == 0 {
        Seq::empty()
    } else {
        flat_map_chars(s.drop_last(), f) + f(s.last())
    }
}

pub proof fn lemma_flat_map_chars_concat(a: Seq<char>, b: Seq<char>, f: spec_fn(char) -> Seq<char>)
    ensures
        flat_map_chars(a + b, f) == flat_map_chars(a, f) + flat_map_chars(b, f),
    decreases b.len(),
{
    if b.len() == 0 {
        assert(a + b =~= a);
    } else {
        lemma_flat_map_chars_concat(a, b.drop_last(), f);
        assert((a + b).drop_last() =~= a + b.drop_last());
    }
}

/// The escaping of the treehouse's own HTML writer: `<`, `>`, `&`, `'` and `"`.
pub open spec fn html_entity(c: char) -> Seq<char> {
    if c == '<' {
        "&lt;"@
    } else if c == '>' {
        "&gt;"@
    } else if c == '&' {
        "&amp;"@
    } else if c == '\'' {
        "&apos;"@
    } else if c == '"' {
        "&quot;"@
    } else {
        seq![c]
    }
}

/// `s` escaped for HTML text.
pub open spec fn html_escaped(s: Seq<char>) -> Seq<char> {
    flat_map_chars(s, |c: char| html_entity(c))
}

/// `s` escaped for an attribute value.
pub open spec fn attribute_escaped(s: Seq<char>) -> Seq<char> {
    flat_map_chars(s, |c: char| attribute_entity(c))
}

/// Text escaped for HTML holds no `<`, `>`, `"` or `'`: whatever it held is written as
/// entities, so it can open no tag and end no attribute value. Text escaped for an attribute
/// value holds no `"`.
pub proof fn law_escaped_text_has_no_markup(s: Seq<char>)
    ensures
        forall|i: int|
            0 <= i < html_escaped(s).len() ==> #[trigger] html_escaped(s)[i] != '<' && html_escaped(s)[i] != '>'
                && html_escaped(s)[i] != '"' && html_escaped(s)[i] != '\'',
        forall|i: int| 0 <= i < attribute_escaped(s).len() ==> #[trigger] attribute_escaped(s)[i] != '"',
    decreases s.len(),
{
    reveal_strlit("&lt;");
    reveal_strlit("&gt;");
    reveal_strlit("&amp;");
    reveal_strlit("&apos;");
    reveal_strlit("&quot;");
    if s.len() > 0 {
        law_escaped_text_has_no_markup(s.drop_last());
        let h = html_escaped(s.drop_last());
        let e = html_entity(s.last());
        assert(html_escaped(s) == h + e);
        assert forall|i: int| 0 <= i < (h + e).len() implies #[trigger] (h + e)[i] != '<' && (h + e)[i] != '>'
            && (h + e)[i] != '"' && (h + e)[i] != '\'' by {
            if i >= h.len() {
                assert((h + e)[i] == e[i - h.len()]);
            } else {
                assert((h + e)[i] == h[i]);
            }
        }
        let a = attribute_escaped(s.drop_last());
        let q = attribute_entity(s.last());
        assert(attribute_escaped(s) == a + q);
        assert forall|i: int| 0 <= i < (a + q).len() implies #[trigger] (a + q)[i] != '"' by {
            if i >= a.len() {
                assert((a + q)[i] == q[i - a.len()]);
            } else {
                assert((a + q)[i] == a[i]);
            }
        }
    }
}

/// The escaping of attribute values: only `"`.
pub open spec fn attribute_entity(c: char) -> Seq<char> {
    if c == '"' {
        "&quot;"@
    } else {
        seq![c]
    }
}

/// The escaping that pulldown-cmark's `escape_html` performs: `"`, `&`, `<` and `>`.
pub open spec fn cmark_entity(c: char) -> Seq<char> {
    if c == '"' {
        "&quot;"@
    } else if c == '&' {
        "&amp;"@
    } else if c == '<' {
        "&lt;"@
    } else if c == '>' {
        "&gt;"@
    } else {
        seq![c]
    }
}

/// The escaping of the Djot writer: `<`, `>`, `&`, and `"` when quotes are escaped too.
pub open spec fn djot_entity(escape_quotes: bool, c: char) -> Seq<char> {
    if c == '<' {
        "&lt;"@
    } else if c == '>' {
        "&gt;"@
    } else if c == '&' {
        "&amp;"@
    } else if c == '"' && escape_quotes {
        "&quot;"@
    } else {
        seq![c]
    }
}

/// `pulldown_cmark::escape::escape_html` writing into a `String`: appends `s` with `"`, `&`,
/// `<` and `>` replaced by their entities.
#[verifier::external_body]
pub(crate) fn escape_html(out: &mut String, s: &str)
    ensures
        final(out)@ == old(out)@ + flat_map_chars(s@, |c: char| cmark_entity(c)),
{
    let _ = pulldown_cmark::escape::escape_html(&mut *out, s);
}

/// Whether `escape_href` keeps the ASCII byte `c` as it is.
pub open spec fn href_safe(c: u8) -> bool {
    ||| c == 0x21
    ||| 0x23 <= c <= 0x25
    ||| 0x28 <= c <= 0x3b
    ||| c == 0x3d
    ||| 0x3f <= c <= 0x5a
    ||| c == 0x5e
    ||| c == 0x5f
    ||| 0x61 <= c <= 0x7a
    ||| c == 0x7e
}

/// An upper-case hexadecimal digit.
pub open spec fn hex_digit(d: u8) -> char {
    if d < 10 {
        (d + 48) as char
    } else {
        (d + 55) as char
    }
}

/// What `escape_href` writes for the byte `c`: the byte itself when it is safe in a link,
/// `&amp;` and `&#x27;` for `&` and `'`, and a percent escape otherwise.
pub open spec fn href_byte(c: u8) -> Seq<char> {
    if c < 0x80 && href_safe(c) {
        seq![c as char]
    } else if c == 0x26 {
        "&amp;"@
    } else if c == 0x27 {
        "&#x27;"@
    } else {
        seq!['%', hex_digit(c / 16), hex_digit(c % 16)]
    }
}

/// The link text that `escape_href` writes for the bytes `b`.
pub open spec fn href_escape(b: Seq<u8>) -> Seq<char>
    decreases b.len(),
{
    if b.len() == 0 {
        Seq::empty()
    } else {
        href_escape(b.drop_last()) + href_byte(b.last())
    }
}

/// `pulldown_cmark::escape::escape_href` writing into a `String`: appends the bytes of `s`,
/// each byte that its table does not mark safe (every byte from 0x80 on among them) replaced
/// by `&amp;`, `&#x27;` or a `%XX` escape.
#[verifier::external_body]
pub(crate) fn escape_href(out: &mut String, s: &str)
    ensures
        final(out)@ == old(out)@ + href_escape(s.spec_bytes()),
{
    let _ = pulldown_cmark::escape::escape_href(&mut *out, s);
}

/// Text to be written with `<`, `>`, `&`, `'` and `"` escaped.
pub struct EscapeHtml<'a>(pub &'a str);

/// Text to be written as an attribute value, with `"` escaped.
pub struct EscapeAttribute<'a>(pub &'a str);

impl<'a> EscapeHtml<'a> {
    /// Appends the escaped text to `out`.
    pub fn write_to(&self, out: &mut String)
        ensures
            final(out)@ == old(out)@ + flat_map_chars(self.0@, |c: char| html_entity(c)),
    {
        let chars = chars_of(self.0);
        
        let ghost start = out@;
        let mut i: usize = 0;
        while i < chars.len()
            invariant
                chars@ == self.0@,
                i <= chars@.len(),
                out@ == start + flat_map_chars(chars@.take(i as int), |c: char| html_entity(c)),
            decreases chars@.len() - i,
        {
            let c = chars[i];
            let ghost before = out@;
            if c == '<' {
                out.push_str("&lt;");

            } else if c == '>' {
                out.push_str("&gt;");
            } else if c == '&' {
                out.push_str("&amp;");
            } else if c == '\'' {
                out.push_str("&apos;");
            } else if c == '"' {
                out.push_str("&quot;");
            } else {
                out.push(c);
            }
            proof {
                assert(chars@.take(i + 1).drop_last() =~= chars@.take(i as int));
                assert(chars@.take(i + 1).last() == c);
                assert(out@ =~= before + html_entity(c));
            }
            i = i + 1;
        }
        assert(chars@.take(i as int) =~= chars@);
    }

    /// The escaped text.
    pub fn to_string(&self) -> (s: String)
        ensures
            s@ == flat_map_chars(self.0@, |c: char| html_entity(c)),
    {
        let mut s = String::new();
        self.write_to(&mut s);
        s
    }
}

impl<'a> EscapeAttribute<'a> {
    /// Appends the escaped text to `out`.
    pub fn write_to(&self, out: &mut String)
        ensures
            final(out)@ == old(out)@ + flat_map_chars(self.0@, |c: char| attribute_entity(c)),
    {
        let chars = chars_of(self.0);
        
        let ghost start = out@;
        let mut i: usize = 0;
        while i < chars.len()
            invariant
                chars@ == self.0@,
                i <= chars@.len(),
                out@ == start + flat_map_chars(chars@.take(i as int), |c: char| attribute_entity(c)),
            decreases chars@.len() - i,
        {
            let c = chars[i];
            let ghost before = out@;
            if c == '"' {
                out.push_str("&quot;");
            } else {
                out.push(c);
            }
            proof {
                assert(chars@.take(i + 1).drop_last() =~= chars@.take(i as int));
                assert(chars@.take(i + 1).last() == c);
                assert(out@ =~= before + attribute_entity(c));
            }
            i = i + 1;
        }
        assert(chars@.take(i as int) =~= chars@);
    }

    /// The escaped text.
    pub fn to_string(&self) -> (s: String)
        ensures
            s@ == flat_map_chars(self.0@, |c: char| attribute_entity(c)),
    {
        let mut s = String::new();
        self.write_to(&mut s);
        s
    }
}

/// Appends `s` to `out` with `<`, `>` and `&` escaped, and `"` too when `escape_quotes`.
pub fn write_escape(s: &str, escape_quotes: bool, out: &mut String)
    ensures
        final(out)@ == old(out)@ + flat_map_chars(s@, |c: char| djot_entity(escape_quotes, c)),
{
    let chars = chars_of(s);
    
    let ghost start = out@;
    let mut i: usize = 0;
    while i < chars.len()
        invariant
            chars@ == s@,
            i <= chars@.len(),
            out@ == start + flat_map_chars(chars@.take(i as int), |c: char| djot_entity(escape_quotes, c)),
        decreases chars@.len() - i,
    {
        let c = chars[i];
        let ghost before = out@;
        if c == '<' {
            out.push_str("&lt;");
        } else if c == '>' {
            out.push_str("&gt;");
        } else if c == '&' {
            out.push_str("&amp;");
        } else if c == '"' && escape_quotes {
            out.push_str("&quot;");
        } else {
            out.push(c);
        }
        proof {
            assert(chars@.take(i + 1).drop_last() =~= chars@.take(i as int));
            assert(chars@.take(i + 1).last() == c);
            assert(out@ =~= before + djot_entity(escape_quotes, c));
        }
        i = i + 1;
    }
    assert(chars@.take(i as int) =~= chars@);
}

/// Appends text, escaped for an element's content.
pub fn write_text(s: &str, out: &mut String)
    ensures
        final(out)@ == old(out)@ + flat_map_chars(s@, |c: char| djot_entity(false, c)),
{
    write_escape(s, false, out)
}

/// Appends text, escaped for an attribute value.
pub fn write_attr(s: &str, out: &mut String)
    ensures
        final(out)@ == old(out)@ + flat_map_chars(s@, |c: char| djot_entity(true, c)),
{
    write_escape(s, true, out)
}

} // verus!
