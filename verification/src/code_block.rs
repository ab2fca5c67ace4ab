//! What a fenced code block's info string asks for: plain text, syntax highlighting, or a
//! part of a literate program (an input, or the output of one, with a placeholder picture).
use vstd::prelude::*;
use vstd::string::*;
use vstd::utf8::*;

use crate::text::{anchored, lemma_anchored_boundary, lemma_str_valid, slice, str_equal, text_of};

verus! {

/// The ASCII space.
pub const SPACE: u8 = 0x20;

/// The first space of `b` at or after `from`.
pub open spec fn space_from(b: Seq<u8>, from: int) -> Option<int>
    decreases b.len() - from,
{
    if from < 0 || from >= b.len() {
        None
    } else if b[from] == SPACE {
        Some(from)
    } else {
        space_from(b, from + 1)
    }
}

proof fn lemma_space_from(b: Seq<u8>, from: int)
    requires
        0 <= from <= b.len(),
    ensures
        space_from(b, from) matches Some(i) ==> from <= i < b.len() && b[i] == SPACE,
        space_from(b, from) is None ==> forall|j: int| from <= j < b.len() ==> b[j] != SPACE,
    decreases b.len() - from,
{
    if from < b.len() && b[from] != SPACE {
        lemma_space_from(b, from + 1);
    }
}

/// The position of the first space of `s` at or after `from`.
fn find_space(s: &str, from: usize) -> (r: Option<usize>)
    requires
        from <= s.spec_bytes().len(),
    ensures
        r == match space_from(s.spec_bytes(), from as int) {
            Some(i) => Some(i as usize),
            None => None::<usize>,
        },
{
    let b = s.as_bytes();
    let mut i = from;
    while i < b.len()
        invariant
            from <= i <= b@.len(),
            b@ == s.spec_bytes(),
            space_from(b@, i as int) == space_from(b@, from as int),
        decreases b@.len() - i,
    {
        if b[i] == SPACE {
            return Some(i);
        }
        i = i + 1;
    }
    None
}

/// Whether a literate code block is a program's input or its output.
#[derive(Debug, Clone, Copy, PartialEq, Eq)]
pub enum LiterateCodeKind<'a> {
    Input,
    /// Output, shown with a placeholder picture until the program has run.
    Output { placeholder_pic_id: &'a str },
}

/// What a code block's info string asks for.
#[derive(Debug, Clone, Copy, PartialEq, Eq)]
pub enum CodeBlockMode<'a> {
    PlainText,
    SyntaxHighlightOnly { language: &'a str },
    LiterateProgram { language: &'a str, kind: LiterateCodeKind<'a>, program_name: &'a str },
}

/// The mode as the contracts see it: plain text is `(0, ..)`, highlighting only `(1, language,
/// ..)`, and a literate program `(2, language, program name, placeholder)`, where an input
/// has no placeholder.
pub open spec fn mode_view(m: CodeBlockMode) -> (int, Seq<char>, Seq<char>, Option<Seq<char>>) {
    match m {
        CodeBlockMode::PlainText => (0, Seq::empty(), Seq::empty(), None),
        CodeBlockMode::SyntaxHighlightOnly { language } => (1, language@, Seq::empty(), None),
        CodeBlockMode::LiterateProgram { language, kind, program_name } => (
            2,
            language@,
            program_name@,
            match kind {
                LiterateCodeKind::Input => None,
                LiterateCodeKind::Output { placeholder_pic_id } => Some(placeholder_pic_id@),
            },
        ),
    }
}

/// The mode that an info string asks for: none is plain text; a single word is the language
/// to highlight; otherwise the first word is the language and the second the program's name,
/// and a block in the `output` language is the output of that program, with the third word
/// and on as its placeholder picture.
pub open spec fn parse_mode_of(s: Seq<char>) -> (int, Seq<char>, Seq<char>, Option<Seq<char>>) {
    let b = encode_utf8(s);
    let n = b.len() as int;
    if n == 0 {
        (0, Seq::empty(), Seq::empty(), None)
    } else {
        match space_from(b, 0) {
            None => (1, s, Seq::empty(), None),
            Some(i) => {
                let language = decode_utf8(b.subrange(0, i));
                let (name, placeholder) = match space_from(b, i + 1) {
                    Some(j) => (decode_utf8(b.subrange(i + 1, j)), decode_utf8(b.subrange(j + 1, n))),
                    None => (decode_utf8(b.subrange(i + 1, n)), Seq::empty()),
                };
                (2, language, name, if language == "output"@ {
                    Some(placeholder)
                } else {
                    None
                })
            },
        }
    }
}

/// The mode that the info string `s` asks for.
pub open spec fn parse_mode(s: &str) -> (int, Seq<char>, Seq<char>, Option<Seq<char>>) {
    parse_mode_of(s@)
}

impl<'a> CodeBlockMode<'a> {
    /// The mode that the info string `language` asks for.
    pub fn parse(language: &'a str) -> (m: CodeBlockMode<'a>)
        requires
            language.spec_bytes().len() <= usize::MAX,
        ensures
            mode_view(m) == parse_mode(language),
    {
        let ghost b = language.spec_bytes();
        let n = language.len();
        proof {
            lemma_str_valid(language);
            vstd::utf8::is_char_boundary_start_end_of_seq(b);
        }
        if n == 0 {
            return CodeBlockMode::PlainText;
        }
        proof {
            lemma_space_from(b, 0);
        }
        match find_space(language, 0) {
            None => {
                proof {
                    assert(language@ == text_of(language, 0, n as int)) by {
                        assert(b.subrange(0, n as int) =~= b);
                    }
                }
                CodeBlockMode::SyntaxHighlightOnly { language }
            },
            Some(i) => {
                proof {
                    lemma_anchored_boundary(b, i as int);
                    lemma_anchored_boundary(b, i + 1);
                    lemma_space_from(b, i + 1);
                }
                let lang = slice(language, 0, i);
                let (program_name, placeholder_pic_id) = match find_space(language, i + 1) {
                    Some(j) => {
                        proof {
                            lemma_anchored_boundary(b, j as int);
                            lemma_anchored_boundary(b, j + 1);
                        }
                        (slice(language, i + 1, j), slice(language, j + 1, n))
                    },
                    None => (slice(language, i + 1, n), ""),
                };
                proof {
                    reveal_strlit("");
                }
                let kind = if str_equal(lang, "output") {
                    LiterateCodeKind::Output { placeholder_pic_id }
                } else {
                    LiterateCodeKind::Input
                };
                CodeBlockMode::LiterateProgram { language: lang, kind, program_name }
            },
        }
    }

    /// The language to highlight the block in, when it is one to highlight.
    pub fn highlighting_language(&self) -> (r: Option<&'a str>)
        ensures
            match r {
                Some(l) => mode_view(*self).0 != 0 && l@ == mode_view(*self).1,
                None => mode_view(*self).0 == 0,
            },
    {
        match self {
            CodeBlockMode::LiterateProgram { language, .. } => Some(*language),
            CodeBlockMode::SyntaxHighlightOnly { language } => Some(*language),
            CodeBlockMode::PlainText => None,
        }
    }
}

} // verus!
