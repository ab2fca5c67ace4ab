//! Semantic analysis of parsed trees: the compilation context that holds the source files,
//! the analysed branches and the diagnostics, and the checks that attributes go through.
use std::ops::Range;
use vstd::prelude::*;
use vstd::string::*;
use vstd::utf8::encode_utf8;
use codespan_reporting::files::{Files, SimpleFiles};
use ulid::Generator;

use crate::ast::{lemma_views_of, spec_parse_roots, views_of, Branch, BranchView, Roots};
use crate::error::error_message;
use crate::config::Config;
use crate::name_map::NameMap;
use crate::pull::{BranchKind, Parser};

verus! {

// ---------------------------------------------------------------------------------------------
// Diagnostics

/// How serious a diagnostic is.
#[derive(Debug, Clone, Copy, PartialEq, Eq, Structural)]
pub enum Severity {
    Bug,
    Error,
    Warning,
    Note,
    Help,
}

/// Whether a label marks the primary cause of a diagnostic.
#[derive(Debug, Clone, Copy, PartialEq, Eq, Structural)]
pub enum LabelStyle {
    Primary,
    Secondary,
}

/// A labelled range of a source file.
#[derive(Debug, Clone)]
pub struct Label {
    pub style: LabelStyle,
    pub file_id: usize,
    pub range: Range<usize>,
    pub message: String,
}

/// A message about a source file.
#[derive(Debug, Clone)]
pub struct Diagnostic {
    pub severity: Severity,
    pub code: Option<String>,
    pub message: String,
    pub labels: Vec<Label>,
    pub notes: Vec<String>,
}

/// A label as the contracts see it.
pub open spec fn label_view(l: Label) -> (LabelStyle, usize, int, int, Seq<char>) {
    (l.style, l.file_id, l.range.start as int, l.range.end as int, l.message@)
}

pub open spec fn text_opt(o: Option<String>) -> Option<Seq<char>> {
    match o {
        Some(s) => Some(s@),
        None => None,
    }
}

/// A diagnostic as the contracts see it: severity, code, message, labels and notes.
pub open spec fn diagnostic_view(d: Diagnostic) -> (
    Severity,
    Option<Seq<char>>,
    Seq<char>,
    Seq<(LabelStyle, usize, int, int, Seq<char>)>,
    Seq<Seq<char>>,
) {
    (
        d.severity,
        text_opt(d.code),
        d.message@,
        d.labels@.map_values(|l: Label| label_view(l)),
        d.notes@.map_values(|n: String| n@),
    )
}

pub open spec fn diagnostics_view(ds: Seq<Diagnostic>) -> Seq<
    (Severity, Option<Seq<char>>, Seq<char>, Seq<(LabelStyle, usize, int, int, Seq<char>)>, Seq<Seq<char>>),
> {
    ds.map_values(|d: Diagnostic| diagnostic_view(d))
}

/// A diagnostic with one primary label without a message.
pub open spec fn labelled(
    severity: Severity,
    code: Seq<char>,
    message: Seq<char>,
    file_id: usize,
    start: int,
    end: int,
    notes: Seq<Seq<char>>,
) -> (Severity, Option<Seq<char>>, Seq<char>, Seq<(LabelStyle, usize, int, int, Seq<char>)>, Seq<Seq<char>>) {
    (severity, Some(code), message, seq![(LabelStyle::Primary, file_id, start, end, Seq::empty())], notes)
}

/// A string with the characters of `s`.
fn owned(s: &str) -> (r: String)
    ensures
        r@ == s@,
{
    s.to_owned()
}

/// A diagnostic with one primary label without a message, and the given notes.
pub(crate) fn labelled_diagnostic(
    severity: Severity,
    code: &str,
    message: String,
    file_id: usize,
    range: Range<usize>,
    notes: Vec<String>,
) -> (d: Diagnostic)
    ensures
        diagnostic_view(d) == labelled(
            severity,
            code@,
            message@,
            file_id,
            range.start as int,
            range.end as int,
            notes@.map_values(|n: String| n@),
        ),
{
    let mut labels: Vec<Label> = Vec::new();
    labels.push(Label { style: LabelStyle::Primary, file_id, range, message: String::new() });
    let d = Diagnostic { severity, code: Some(owned(code)), message, labels, notes };
    proof {
        assert(d.labels@.map_values(|l: Label| label_view(l)) =~= seq![
            (LabelStyle::Primary, file_id, range.start as int, range.end as int, Seq::<char>::empty()),
        ]);
    }
    d
}

/// A TOML syntax error as the TOML parser reports it: a message, and the range of the
/// parsed text that it is about, when it has one.
#[derive(Debug, Clone)]
pub struct TomlParseError {
    pub message: String,
    pub span: Option<Range<usize>>,
}

/// A TOML syntax error in a part of a source file.
#[derive(Debug, Clone)]
pub struct TomlError {
    pub message: String,
    /// The range of the parsed text that the error is about.
    pub span: Option<Range<usize>>,
    pub file_id: usize,
    /// Where the parsed text stands in the file.
    pub input_range: Range<usize>,
}

/// The diagnostic for a TOML error: an error whose label, when the error has a span, marks
/// that span where it stands in the file.
pub open spec fn toml_diagnostic(error: TomlError) -> (
    Severity,
    Option<Seq<char>>,
    Seq<char>,
    Seq<(LabelStyle, usize, int, int, Seq<char>)>,
    Seq<Seq<char>>,
) {
    (
        Severity::Error,
        Some("toml"@),
        error.message@,
        match error.span {
            Some(span) => seq![
                (
                    LabelStyle::Primary,
                    error.file_id,
                    error.input_range.start + span.start,
                    error.input_range.start + span.end,
                    Seq::<char>::empty(),
                ),
            ],
            None => Seq::empty(),
        },
        Seq::empty(),
    )
}

/// Turns a TOML error into a diagnostic.
pub fn toml_error_to_diagnostic(error: TomlError) -> (d: Diagnostic)
    requires
        error.span matches Some(span) ==> error.input_range.start + span.start <= usize::MAX
            && error.input_range.start + span.end <= usize::MAX,
    ensures
        diagnostic_view(d) == toml_diagnostic(error),
{
    let ghost e = error;
    let mut labels: Vec<Label> = Vec::new();
    match error.span {
        Some(span) => {
            labels.push(
                Label {
                    style: LabelStyle::Primary,
                    file_id: error.file_id,
                    range: Range {
                        start: error.input_range.start + span.start,
                        end: error.input_range.start + span.end,
                    },
                    message: String::new(),
                },
            );
        },
        None => {},
    }
    let d = Diagnostic {
        severity: Severity::Error,
        code: Some(owned("toml")),
        message: error.message,
        labels,
        notes: Vec::new(),
    };
    proof {
        assert(d.labels@.map_values(|l: Label| label_view(l)) =~= toml_diagnostic(e).3);
        assert(d.notes@.map_values(|n: String| n@) =~= Seq::<Seq<char>>::empty());
    }
    d
}

// ---------------------------------------------------------------------------------------------
// Attributes

/// How a branch's content is presented.
#[derive(Debug, Clone, PartialEq, Eq)]
pub enum Content {
    /// Children are stored inline in the branch.
    Inline,
    /// A link to another tree, given relative to the content root without an extension. The
    /// linked tree is embedded lazily with JavaScript, and linked with an `<a>` without.
    Link(String),
}

/// Extra CSS classes of a branch.
#[derive(Debug, Clone, PartialEq, Eq)]
pub struct Classes {
    /// Classes of the branch itself.
    pub branch: String,
    /// Classes of the `<ul>` that holds its children.
    pub branch_children: String,
}

/// The publishing stage of a branch: drafts are left out of release builds.
#[derive(Debug, Clone, Copy, PartialEq, Eq, Structural)]
pub enum Stage {
    Public,
    Draft,
}

/// The attributes of a branch.
#[derive(Debug, Clone, PartialEq, Eq)]
pub struct Attributes {
    /// The branch's identifier, unique to the whole site.
    pub id: String,
    /// How the content is presented.
    pub content: Content,
    /// Do not persist the branch in localStorage.
    pub do_not_persist: bool,
    /// Extra CSS classes.
    pub classes: Classes,
    /// Whether templates in the branch's text are expanded.
    pub template: bool,
    /// The publishing stage.
    pub stage: Stage,
}

/// The attributes of a branch that has none given.
pub open spec fn is_default_attributes(a: Attributes) -> bool {
    &&& a.id@.len() == 0
    &&& a.content == Content::Inline
    &&& !a.do_not_persist
    &&& a.classes.branch@.len() == 0
    &&& a.classes.branch_children@.len() == 0
    &&& !a.template
    &&& a.stage == Stage::Public
}

impl Default for Attributes {
    fn default() -> (a: Self)
        ensures
            is_default_attributes(a),
    {
        Attributes {
            id: String::new(),
            content: Content::Inline,
            do_not_persist: false,
            classes: Classes { branch: String::new(), branch_children: String::new() },
            template: false,
            stage: Stage::Public,
        }
    }
}

/// A picture reference.
#[derive(Debug, Clone, PartialEq, Eq)]
pub struct Picture {
    /// The picture's identifier.
    pub id: String,
    /// Its alt text.
    pub alt: Option<String>,
}

/// The attributes of a whole tree, given at its top.
#[derive(Debug, Clone, PartialEq, Eq)]
pub struct RootAttributes {
    /// The template that the page is generated with.
    pub template: Option<String>,
    /// The title of the page; its tree path when empty.
    pub title: String,
    /// A summary of the page.
    pub description: Option<String>,
    /// The picture to show as the page's thumbnail.
    pub thumbnail: Option<Picture>,
    /// Scripts to load, relative to the scripts directory.
    pub scripts: Vec<String>,
    /// Styles to load, relative to the styles directory.
    pub styles: Vec<String>,
    /// The feed that the page's branches are added to.
    pub feed: Option<String>,
}

/// The root attributes of a tree that has none given.
pub open spec fn is_default_root_attributes(a: RootAttributes) -> bool {
    &&& a.template is None
    &&& a.title@.len() == 0
    &&& a.description is None
    &&& a.thumbnail is None
    &&& a.scripts@.len() == 0
    &&& a.styles@.len() == 0
    &&& a.feed is None
}

impl Default for RootAttributes {
    fn default() -> (a: Self)
        ensures
            is_default_root_attributes(a),
    {
        RootAttributes {
            template: None,
            title: String::new(),
            description: None,
            thumbnail: None,
            scripts: Vec::new(),
            styles: Vec::new(),
            feed: None,
        }
    }
}

// ---------------------------------------------------------------------------------------------
// The compilation context

#[verifier::external_type_specification]
#[verifier::external_body]
pub struct ExGenerator(Generator);

/// `Generator::new`: a generator of increasing ULIDs that has made none yet.
pub assume_specification[ Generator::new ]() -> Generator;

/// A digit of Crockford's base 32, as ULIDs are written: `0` to `9` and the capital letters
/// but `I`, `L`, `O` and `U`.
pub open spec fn is_crockford_digit(c: char) -> bool {
    ('0' <= c <= '9' || 'A' <= c <= 'Z') && c != 'I' && c != 'L' && c != 'O' && c != 'U'
}

/// The text of a ULID: 26 digits of Crockford's base 32.
pub open spec fn is_ulid_text(s: Seq<char>) -> bool {
    s.len() == 26 && forall|i: int| 0 <= i < s.len() ==> is_crockford_digit(#[trigger] s[i])
}

/// `Generator::generate` and `Ulid::to_string`: the text of a new ULID, made from the current
/// time and randomness and larger than the generator's last one, written as 26 digits of
/// Crockford's base 32; none when the random part would overflow within one millisecond.
/// Which ULID it is depends on the clock and on chance, and is not stated.
#[verifier::external_body]
fn generate_ulid(generator: &mut Generator) -> (r: Option<String>)
    ensures
        r matches Some(s) ==> is_ulid_text(s@),
{
    match generator.generate() {
        Ok(ulid) => Some(ulid.to_string()),
        Err(_) => None,
    }
}

#[verifier::external_type_specification]
#[verifier::external_body]
#[verifier::reject_recursive_types(Name)]
#[verifier::reject_recursive_types(Source)]
pub struct ExSimpleFiles<Name, Source>(SimpleFiles<Name, Source>);

/// The files of a file database, in the order in which they were added: each file's name and
/// text.
pub uninterp spec fn files_of(files: SimpleFiles<String, String>) -> Seq<(Seq<char>, Seq<char>)>;

/// The positions right after the line feeds among the first `n` bytes of `b`.
pub open spec fn newline_ends(b: Seq<u8>, n: int) -> Seq<int>
    decreases n,
{
    if n <= 0 || n > b.len() {
        Seq::empty()
    } else {
        newline_ends(b, n - 1) + if b[n - 1] == 0x0a {
            seq![n]
        } else {
            Seq::empty()
        }
    }
}

/// Each position after a line feed lies after the start and within the first `n` bytes.
pub proof fn lemma_newline_ends_bounds(b: Seq<u8>, n: int)
    ensures
        forall|i: int| 0 <= i < newline_ends(b, n).len() ==> 1 <= #[trigger] newline_ends(b, n)[i] <= n,
    decreases n,
{
    if !(n <= 0 || n > b.len()) {
        lemma_newline_ends_bounds(b, n - 1);
        let prev = newline_ends(b, n - 1);
        let last: Seq<int> = if b[n - 1] == 0x0a { seq![n] } else { Seq::empty() };
        assert(newline_ends(b, n) == prev + last);
        assert forall|i: int| 0 <= i < (prev + last).len() implies 1 <= #[trigger] (prev + last)[i] <= n by {
            if i < prev.len() {
                assert((prev + last)[i] == prev[i]);
            } else {
                assert((prev + last)[i] == last[i - prev.len()]);
            }
        }
    }
}

/// Every line of `b` starts within it.
pub proof fn lemma_line_start_bounds(b: Seq<u8>, k: int)
    ensures
        line_start(b, k) matches Some(s) ==> 0 <= s <= b.len(),
{
    lemma_newline_ends_bounds(b, b.len() as int);
    let starts = line_starts(b);
    if 0 <= k < starts.len() && k > 0 {
        assert(starts[k] == newline_ends(b, b.len() as int)[k - 1]);
    }
}

/// Where each line of `b` starts.
pub open spec fn line_starts(b: Seq<u8>) -> Seq<int> {
    seq![0int] + newline_ends(b, b.len() as int)
}

/// Where line `k` (counted from 0) of `b` starts; the end of `b` for the line after the last
/// one, and none beyond that.
pub open spec fn line_start(b: Seq<u8>, k: int) -> Option<int> {
    let starts = line_starts(b);
    if 0 <= k < starts.len() {
        Some(starts[k])
    } else if k == starts.len() {
        Some(b.len() as int)
    } else {
        None
    }
}

/// The bytes of line `k` of `b`, from where it starts to where the next one does.
pub open spec fn line_range(b: Seq<u8>, k: int) -> Option<(int, int)> {
    match (line_start(b, k), line_start(b, k + 1)) {
        (Some(s), Some(e)) => Some((s, e)),
        _ => None,
    }
}

/// `SimpleFiles::new`: a database without files.
#[verifier::external_body]
fn new_files() -> (files: SimpleFiles<String, String>)
    ensures
        files_of(files) == Seq::<(Seq<char>, Seq<char>)>::empty(),
{
    SimpleFiles::new()
}

/// `SimpleFiles::add`: adds a file last and returns its index.
#[verifier::external_body]
fn add_to_files(files: &mut SimpleFiles<String, String>, name: String, source: String) -> (id: usize)
    ensures
        id == files_of(*old(files)).len(),
        files_of(*final(files)) == files_of(*old(files)).push((name@, source@)),
{
    files.add(name, source)
}

/// `SimpleFiles::get` and `SimpleFile::source`: the text of file `file_id`.
#[verifier::external_body]
fn source_in(files: &SimpleFiles<String, String>, file_id: usize) -> (s: &str)
    requires
        file_id < files_of(*files).len(),
    ensures
        s@ == files_of(*files)[file_id as int].1,
{
    match files.get(file_id) {
        Ok(file) => file.source().as_str(),
        Err(_) => "",
    }
}

/// `SimpleFiles::get` and `SimpleFile::name`: the name of file `file_id`.
#[verifier::external_body]
fn name_in(files: &SimpleFiles<String, String>, file_id: usize) -> (s: &str)
    requires
        file_id < files_of(*files).len(),
    ensures
        s@ == files_of(*files)[file_id as int].0,
{
    match files.get(file_id) {
        Ok(file) => file.name().as_str(),
        Err(_) => "",
    }
}

/// `SimpleFiles::get`: whether the database has a file `file_id`.
#[verifier::external_body]
pub(crate) fn has_file(files: &SimpleFiles<String, String>, file_id: usize) -> (r: bool)
    ensures
        r == (file_id < files_of(*files).len()),
{
    files.get(file_id).is_ok()
}

/// `Files::line_range` of `SimpleFiles`: where line `line` (counted from 0) of file `file_id`
/// starts, as its text's line starts (0, and each position after a line feed) give it; none
/// when the file has no such line.
#[verifier::external_body]
pub(crate) fn line_start_in(files: &SimpleFiles<String, String>, file_id: usize, line: usize) -> (r: Option<usize>)
    requires
        file_id < files_of(*files).len(),
    ensures
        match line_range(encode_utf8(files_of(*files)[file_id as int].1), line as int) {
            Some((start, _)) => r == Some(start as usize),
            None => r is None,
        },
{
    match files.line_range(file_id, line) {
        Ok(range) => Some(range.start),
        Err(_) => None,
    }
}

/// The index of an analysed branch.
#[derive(Debug, Clone, Copy, PartialEq, Eq, Structural)]
pub struct SemaBranchId(pub usize);

/// An analysed branch.
#[derive(Debug, Clone)]
pub struct SemaBranch {
    pub file_id: usize,
    pub indent_level: usize,
    pub kind: BranchKind,
    pub kind_span: Range<usize>,
    pub content: Range<usize>,
    /// The branch's element id: its tree path and its own id.
    pub html_id: String,
    pub attributes: Attributes,
    pub children: Vec<SemaBranchId>,
}

/// The analysed branches of all trees. A branch is added after its children, so every child
/// comes before its parent.
#[derive(Debug, Clone)]
pub struct SemaTree {
    branches: Vec<SemaBranch>,
}

impl SemaTree {
    pub closed spec fn branches_spec(&self) -> Seq<SemaBranch> {
        self.branches@
    }

    /// Every child comes before its parent.
    pub open spec fn wf(&self) -> bool {
        forall|i: int, j: int|
            0 <= i < self.branches_spec().len() && 0 <= j < self.branches_spec()[i].children@.len()
                ==> (#[trigger] self.branches_spec()[i].children@[j]).0 < i
    }

    /// An empty tree.
    pub fn new() -> (t: Self)
        ensures
            t.branches_spec().len() == 0,
            t.wf(),
    {
        SemaTree { branches: Vec::new() }
    }

    /// Adds a branch whose children are already in the tree, and returns its index.
    pub fn add_branch(&mut self, branch: SemaBranch) -> (id: SemaBranchId)
        requires
            forall|j: int|
                0 <= j < branch.children@.len() ==> (#[trigger] branch.children@[j]).0
                    < old(self).branches_spec().len(),
        ensures
            id.0 == old(self).branches_spec().len(),
            final(self).branches_spec() == old(self).branches_spec().push(branch),
            old(self).wf() ==> final(self).wf(),
    {
        let id = self.branches.len();
        self.branches.push(branch);
        SemaBranchId(id)
    }

    /// The branch with index `id`.
    pub fn branch(&self, id: SemaBranchId) -> (b: &SemaBranch)
        requires
            id.0 < self.branches_spec().len(),
        ensures
            *b == self.branches_spec()[id.0 as int],
    {
        &self.branches[id.0]
    }

    /// The number of branches.
    pub fn len(&self) -> (n: usize)
        ensures
            n == self.branches_spec().len(),
    {
        self.branches.len()
    }
}

/// An analysed tree: its attributes and its top-level branches.
#[derive(Debug, Clone)]
pub struct SemaRoots {
    pub attributes: RootAttributes,
    pub branches: Vec<SemaBranchId>,
}

/// The compilation context: source files, analysed branches and diagnostics.
pub struct Treehouse {
    pub files: SimpleFiles<String, String>,
    pub diagnostics: Vec<Diagnostic>,
    pub tree: SemaTree,
    /// The branches by their own ids.
    pub branches_by_named_id: NameMap<SemaBranchId>,
    /// The analysed trees by their tree paths.
    pub roots: NameMap<SemaRoots>,
    /// The tree path of each file that is a tree.
    pub tree_paths: Vec<Option<String>>,
    /// Where ids for branches without one come from.
    pub missingno_generator: Generator,
}

impl Treehouse {
    /// The tree path of file `file_id`, for a file that is a tree.
    pub open spec fn tree_path_spec(&self, file_id: int) -> Option<Seq<char>> {
        text_opt(self.tree_paths@[file_id])
    }

    /// The files: each one's name and text.
    pub open spec fn files_view(&self) -> Seq<(Seq<char>, Seq<char>)> {
        files_of(self.files)
    }

    /// Every file has its tree path or none.
    pub open spec fn wf(&self) -> bool {
        self.tree_paths@.len() == self.files_view().len()
    }

    /// A context without files.
    pub fn new() -> (t: Self)
        ensures
            t.wf(),
            t.files_view().len() == 0,
            t.diagnostics@.len() == 0,
            t.tree.branches_spec().len() == 0,
            t.tree.wf(),
            forall|k: Seq<char>| t.branches_by_named_id.get_spec(k) is None,
            forall|k: Seq<char>| t.roots.get_spec(k) is None,
            named_ids_valid(&t),
            named_ids_last(&t),
    {
        Treehouse {
            files: new_files(),
            diagnostics: Vec::new(),
            tree: SemaTree::new(),
            branches_by_named_id: NameMap::new(),
            roots: NameMap::new(),
            tree_paths: Vec::new(),
            missingno_generator: Generator::new(),
        }
    }

    /// Adds a file, with its tree path when it is a tree, and returns its index.
    pub fn add_file(&mut self, filename: String, tree_path: Option<String>, source: String) -> (id: usize)
        requires
            old(self).wf(),
        ensures
            final(self).wf(),
            id == old(self).files_view().len(),
            final(self).files_view() == old(self).files_view().push((filename@, source@)),
            final(self).tree_path_spec(id as int) == text_opt(tree_path),
            forall|f: int|
                0 <= f < id ==> final(self).tree_path_spec(f) == old(self).tree_path_spec(f),
            final(self).diagnostics == old(self).diagnostics,
            final(self).tree == old(self).tree,
            final(self).branches_by_named_id == old(self).branches_by_named_id,
            final(self).roots == old(self).roots,
    {
        let id = add_to_files(&mut self.files, filename, source);
        self.tree_paths.push(tree_path);
        id
    }

    /// The text of file `file_id`.
    pub fn source(&self, file_id: usize) -> (s: &str)
        requires
            file_id < self.files_view().len(),
        ensures
            s@ == self.files_view()[file_id as int].1,
    {
        source_in(&self.files, file_id)
    }

    /// The name of file `file_id`.
    pub fn filename(&self, file_id: usize) -> (s: &str)
        requires
            file_id < self.files_view().len(),
        ensures
            s@ == self.files_view()[file_id as int].0,
    {
        name_in(&self.files, file_id)
    }

    /// The tree path of file `file_id`, for a file that is a tree.
    pub fn tree_path(&self, file_id: usize) -> (p: Option<&str>)
        requires
            self.wf(),
            file_id < self.files_view().len(),
        ensures
            match self.tree_path_spec(file_id as int) {
                Some(t) => p matches Some(s) && s@ == t,
                None => p is None,
            },
    {
        match &self.tree_paths[file_id] {
            Some(path) => Some(path.as_str()),
            None => None,
        }
    }

    /// A new ULID for a branch without an id, written as 26 digits of Crockford's base 32;
    /// none when the generator has run out of ids for the current millisecond.
    pub fn next_missingno(&mut self) -> (r: Option<String>)
        ensures
            r matches Some(s) ==> is_ulid_text(s@),
            final(self).wf() == old(self).wf(),
            forall|f: int| final(self).tree_path_spec(f) == old(self).tree_path_spec(f),
            final(self).files == old(self).files,
            final(self).diagnostics == old(self).diagnostics,
            final(self).tree == old(self).tree,
            final(self).branches_by_named_id == old(self).branches_by_named_id,
            final(self).roots == old(self).roots,
            final(self).tree_paths == old(self).tree_paths,
    {
        generate_ulid(&mut self.missingno_generator)
    }
}

// ---------------------------------------------------------------------------------------------
// Checking attributes

/// The diagnostic for a branch without an id, which is given the generated id `id`.
pub open spec fn missing_id_diagnostic(file_id: usize, start: int, end: int, id: Seq<char>, filename: Seq<char>) -> (
    Severity,
    Option<Seq<char>>,
    Seq<char>,
    Seq<(LabelStyle, usize, int, int, Seq<char>)>,
    Seq<Seq<char>>,
) {
    labelled(
        Severity::Warning,
        "attr"@,
        "branch does not have an `id` attribute"@,
        file_id,
        start,
        end,
        seq![
            "note: a generated id `"@ + id
                + "` will be used, but this id is unstable and will not persist across generations"@,
            "help: run `treehouse fix "@ + filename + "` to add missing ids to branches"@,
        ],
    )
}

/// The diagnostics for a branch that links to another tree: a warning when it is expanded,
/// which defeats lazy loading, and an error when it has children of its own, which a link
/// cannot hold; none for a branch that does not link.
pub open spec fn link_diagnostics(file_id: usize, branch: BranchView, content: Content) -> Seq<
    (Severity, Option<Seq<char>>, Seq<char>, Seq<(LabelStyle, usize, int, int, Seq<char>)>, Seq<Seq<char>>),
> {
    (if content is Link && branch.kind == BranchKind::Expanded {
        seq![
            labelled(
                Severity::Warning,
                "attr"@,
                "`content.link` branch is expanded by default"@,
                file_id,
                branch.kind_span.start as int,
                branch.kind_span.end as int,
                seq!["note: `content.link` branches should normally be collapsed to allow for lazy loading"@],
            ),
        ]
    } else {
        Seq::empty()
    }) + (if content is Link && branch.children.len() > 0 {
        seq![
            labelled(
                Severity::Error,
                "attr"@,
                "`content.link` branch must not contain children"@,
                file_id,
                branch.kind_span.start as int,
                branch.kind_span.end as int,
                Seq::empty(),
            ),
        ]
    } else {
        Seq::empty()
    })
}

/// Where warnings about a branch's attributes point: at its `%`, or at its kind when it has
/// no attributes.
pub open spec fn warning_span(branch: BranchView) -> (int, int) {
    match branch.attributes {
        Some(a) => (a.percent.start as int, a.percent.end as int),
        None => (branch.kind_span.start as int, branch.kind_span.end as int),
    }
}

/// The attributes are the same but for their id.
pub open spec fn same_but_id(a: Attributes, b: Attributes) -> bool {
    &&& a.content == b.content
    &&& a.do_not_persist == b.do_not_persist
    &&& a.classes == b.classes
    &&& a.template == b.template
    &&& a.stage == b.stage
}

/// The attributes are the defaults but for their id.
pub open spec fn default_but_id(a: Attributes) -> bool {
    &&& a.content == Content::Inline
    &&& !a.do_not_persist
    &&& a.classes.branch@.len() == 0
    &&& a.classes.branch_children@.len() == 0
    &&& !a.template
    &&& a.stage == Stage::Public
}

/// A TOML error about a part of the file starting at `start` can be placed in the file.
pub open spec fn toml_error_fits(start: int, parsed: Result<Attributes, TomlParseError>) -> bool {
    parsed matches Err(e) ==> (e.span matches Some(span) ==> start + span.end <= usize::MAX && start
        + span.start <= usize::MAX)
}

/// Everything in the context but its diagnostics and its id generator stays as it was.
pub open spec fn same_context(a: &Treehouse, b: &Treehouse) -> bool {
    &&& a.files == b.files
    &&& a.tree == b.tree
    &&& a.branches_by_named_id == b.branches_by_named_id
    &&& a.roots == b.roots
    &&& a.tree_paths == b.tree_paths
}

/// A string of the characters of `a` followed by those of `b`.
fn concat(a: &str, b: &str) -> (r: String)
    ensures
        r@ == a@ + b@,
{
    let mut r = a.to_owned();
    r.push_str(b);
    r
}

impl SemaBranch {
    /// Checks the attributes of `branch`, as parsed from its attribute text into `parsed`, and
    /// reports what is wrong with them. Attributes that do not parse are reported and replaced
    /// by the defaults. Attributes that parse are checked: a branch without an id gets a
    /// generated one, and an expanded branch that links to another tree is reported. None when
    /// an id had to be generated and the generator had run out of ids.
    pub fn parse_attributes(
        treehouse: &mut Treehouse,
        file_id: usize,
        branch: &Branch,
        parsed: Result<Attributes, TomlParseError>,
    ) -> (r: Option<Attributes>)
        requires
            old(treehouse).wf(),
            file_id < old(treehouse).files_view().len(),
            branch.attributes matches Some(a) ==> toml_error_fits(a.data.start as int, parsed),
        ensures
            same_context(final(treehouse), old(treehouse)),
            final(treehouse).wf(),
            // Attributes that do not parse.
            (branch.attributes is Some && parsed is Err) ==> (r matches Some(a) && is_default_attributes(
                a,
            ) && diagnostics_view(final(treehouse).diagnostics@) == diagnostics_view(
                old(treehouse).diagnostics@,
            ).push(
                toml_diagnostic(
                    TomlError {
                        message: parsed->Err_0.message,
                        span: parsed->Err_0.span,
                        file_id,
                        input_range: branch.attributes->Some_0.data,
                    },
                ),
            )),
            // Attributes that parse, or none at all.
            (branch.attributes is None || parsed is Ok) ==> {
                let given_id: Seq<char> = match branch.attributes {
                    Some(_) => parsed->Ok_0.id@,
                    None => Seq::empty(),
                };
                &&& branch.attributes is Some ==> (r matches Some(a) ==> same_but_id(a, parsed->Ok_0))
                &&& branch.attributes is None ==> (r matches Some(a) ==> default_but_id(a))
                &&& given_id.len() == 0 ==> match r {
                    None => final(treehouse).diagnostics == old(treehouse).diagnostics,
                    Some(a) => (exists|u: Seq<char>| is_ulid_text(u) && a.id@ == "treehouse-missingno-"@ + u)
                        && diagnostics_view(
                        final(treehouse).diagnostics@,
                    ) == diagnostics_view(old(treehouse).diagnostics@).push(
                        missing_id_diagnostic(
                            file_id,
                            warning_span(branch.view_tree()).0,
                            warning_span(branch.view_tree()).1,
                            a.id@,
                            old(treehouse).files_view()[file_id as int].0,
                        ),
                    ) + link_diagnostics(file_id, branch.view_tree(), a.content),
                }
                &&& given_id.len() > 0 ==> (r matches Some(a) && a.id@ == given_id && diagnostics_view(
                    final(treehouse).diagnostics@,
                ) == diagnostics_view(old(treehouse).diagnostics@) + link_diagnostics(
                    file_id,
                    branch.view_tree(),
                    a.content,
                ))
            },
    {
        proof {
            lemma_views_of(branch.children@);
        }
        let ghost old_diagnostics = diagnostics_view(treehouse.diagnostics@);
        let ghost failed = branch.attributes is Some && parsed is Err;
        let mut attributes: Attributes;
        match &branch.attributes {
            Some(at) => match parsed {
                Ok(a) => {
                    attributes = a;
                },
                Err(e) => {
                    let d = toml_error_to_diagnostic(
                        TomlError {
                            message: e.message,
                            span: e.span,
                            file_id,
                            input_range: Range { start: at.data.start, end: at.data.end },
                        },
                    );
                    treehouse.diagnostics.push(d);
                    proof {
                        assert(diagnostics_view(treehouse.diagnostics@) =~= old_diagnostics.push(
                            diagnostic_view(d),
                        ));
                    }
                    return Some(Attributes::default());
                },
            },
            None => {
                attributes = Attributes::default();
            },
        }
        assert(!failed);
        let ghost given = attributes;
        assert(branch.attributes is Some ==> given == parsed->Ok_0);
        let span = match &branch.attributes {
            Some(at) => Range { start: at.percent.start, end: at.percent.end },
            None => Range { start: branch.kind_span.start, end: branch.kind_span.end },
        };
        if attributes.id.as_str().is_empty() {
            let ulid = match treehouse.next_missingno() {
                Some(u) => u,
                None => {
                    return None;
                },
            };
            attributes.id = concat("treehouse-missingno-", ulid.as_str());
            let note = concat("note: a generated id `", attributes.id.as_str());
            let note = concat(
                note.as_str(),
                "` will be used, but this id is unstable and will not persist across generations",
            );
            let help = concat("help: run `treehouse fix ", treehouse.filename(file_id));
            let help = concat(help.as_str(), "` to add missing ids to branches");
            let mut notes: Vec<String> = Vec::new();
            notes.push(note);
            notes.push(help);
            let d = labelled_diagnostic(
                Severity::Warning,
                "attr",
                owned("branch does not have an `id` attribute"),
                file_id,
                span,
                notes,
            );
            let ghost before = treehouse.diagnostics@;
            treehouse.diagnostics.push(d);
            proof {
                assert(notes@.map_values(|n: String| n@) =~= seq![note@, help@]);
                assert(diagnostics_view(treehouse.diagnostics@) =~= diagnostics_view(before).push(
                    diagnostic_view(d),
                ));
                assert(is_ulid_text(ulid@) && attributes.id@ == "treehouse-missingno-"@ + ulid@);
            }
        }
        let ghost before_link = treehouse.diagnostics@;
        let is_link = match &attributes.content {
            Content::Link(_) => true,
            Content::Inline => false,
        };
        if is_link && branch.kind == BranchKind::Expanded {
            let mut notes: Vec<String> = Vec::new();
            notes.push(
                owned(
                    "note: `content.link` branches should normally be collapsed to allow for lazy loading",
                ),
            );
            let d = labelled_diagnostic(
                Severity::Warning,
                "attr",
                owned("`content.link` branch is expanded by default"),
                file_id,
                Range { start: branch.kind_span.start, end: branch.kind_span.end },
                notes,
            );
            treehouse.diagnostics.push(d);
            proof {
                assert(notes@.map_values(|n: String| n@) =~= seq![
                    "note: `content.link` branches should normally be collapsed to allow for lazy loading"@,
                ]);
            }
        }
        let ghost before_children = treehouse.diagnostics@;
        proof {
            assert(diagnostics_view(before_children) =~= diagnostics_view(before_link) + (if attributes.content is Link
                && branch.kind == BranchKind::Expanded {
                seq![
                    labelled(
                        Severity::Warning,
                        "attr"@,
                        "`content.link` branch is expanded by default"@,
                        file_id,
                        branch.kind_span.start as int,
                        branch.kind_span.end as int,
                        seq!["note: `content.link` branches should normally be collapsed to allow for lazy loading"@],
                    ),
                ]
            } else {
                Seq::empty()
            }));
        }
        if is_link && branch.children.len() > 0 {
            let notes: Vec<String> = Vec::new();
            let d = labelled_diagnostic(
                Severity::Error,
                "attr",
                owned("`content.link` branch must not contain children"),
                file_id,
                Range { start: branch.kind_span.start, end: branch.kind_span.end },
                notes,
            );
            treehouse.diagnostics.push(d);
            proof {
                assert(notes@.map_values(|n: String| n@) =~= Seq::<Seq<char>>::empty());
                assert(diagnostics_view(treehouse.diagnostics@) =~= diagnostics_view(before_children).push(
                    diagnostic_view(d),
                ));
            }
        }
        proof {
            assert(diagnostics_view(treehouse.diagnostics@) =~= diagnostics_view(before_link) + link_diagnostics(
                file_id,
                branch.view_tree(),
                attributes.content,
            ));
        }
        Some(attributes)
    }
}

/// The diagnostic for two branches that share an id: it points at both.
pub open spec fn duplicate_id_diagnostic(id: Seq<char>, new: SemaBranch, old: SemaBranch) -> (
    Severity,
    Option<Seq<char>>,
    Seq<char>,
    Seq<(LabelStyle, usize, int, int, Seq<char>)>,
    Seq<Seq<char>>,
) {
    (
        Severity::Warning,
        Some("sema"@),
        "two branches share the same id `"@ + id + "`"@,
        seq![
            (
                LabelStyle::Primary,
                new.file_id,
                new.kind_span.start as int,
                new.kind_span.end as int,
                Seq::<char>::empty(),
            ),
            (
                LabelStyle::Primary,
                old.file_id,
                old.kind_span.start as int,
                old.kind_span.end as int,
                Seq::<char>::empty(),
            ),
        ],
        Seq::empty(),
    )
}

/// Every branch that the named-id index points to is in the tree.
pub open spec fn named_ids_valid(t: &Treehouse) -> bool {
    forall|k: Seq<char>|
        #[trigger] t.branches_by_named_id.get_spec(k) matches Some(id) ==> id.0
            < t.tree.branches_spec().len()
}

impl SemaBranch {
    /// Adds an analysed branch to the tree and indexes it by its id. When another branch had
    /// that id already, the index keeps the new one and both are reported.
    pub fn register(treehouse: &mut Treehouse, branch: SemaBranch) -> (id: SemaBranchId)
        requires
            named_ids_valid(old(treehouse)),
            named_ids_last(old(treehouse)),
            forall|j: int|
                0 <= j < branch.children@.len() ==> (#[trigger] branch.children@[j]).0
                    < old(treehouse).tree.branches_spec().len(),
        ensures
            id.0 == old(treehouse).tree.branches_spec().len(),
            named_ids_last(final(treehouse)),
            final(treehouse).tree.branches_spec() == old(treehouse).tree.branches_spec().push(branch),
            old(treehouse).tree.wf() ==> final(treehouse).tree.wf(),
            final(treehouse).branches_by_named_id.get_spec(branch.attributes.id@) == Some(id),
            forall|k: Seq<char>|
                k != branch.attributes.id@ ==> final(treehouse).branches_by_named_id.get_spec(k)
                    == old(treehouse).branches_by_named_id.get_spec(k),
            named_ids_valid(final(treehouse)),
            match old(treehouse).branches_by_named_id.get_spec(branch.attributes.id@) {
                Some(previous) => diagnostics_view(final(treehouse).diagnostics@) == diagnostics_view(
                    old(treehouse).diagnostics@,
                ).push(
                    duplicate_id_diagnostic(
                        branch.attributes.id@,
                        branch,
                        old(treehouse).tree.branches_spec()[previous.0 as int],
                    ),
                ),
                None => final(treehouse).diagnostics == old(treehouse).diagnostics,
            },
            final(treehouse).files == old(treehouse).files,
            final(treehouse).tree_paths == old(treehouse).tree_paths,
            final(treehouse).roots == old(treehouse).roots,
    {
        let named_id = branch.attributes.id.clone();
        let ghost k = branch.attributes.id@;
        let ghost before_tree = treehouse.tree.branches_spec();
        let new_id = treehouse.tree.add_branch(branch);
        let previous = treehouse.branches_by_named_id.insert(named_id, new_id);
        proof {
            let after_tree = treehouse.tree.branches_spec();
            let n = before_tree.len() as int;
            assert(after_tree.subrange(0, n) =~= before_tree.subrange(0, n));
            assert forall|k2: Seq<char>| #[trigger] treehouse.branches_by_named_id.get_spec(k2) == match last_with_id(
                after_tree,
                k2,
                after_tree.len() as int,
            ) {
                Some(j) => Some(SemaBranchId(j as usize)),
                None => None,
            } by {
                if k2 != k {
                    lemma_last_with_id_prefix(after_tree, before_tree, k2, n);
                    assert(old(treehouse).branches_by_named_id.get_spec(k2) == match last_with_id(
                        before_tree,
                        k2,
                        n,
                    ) {
                        Some(j) => Some(SemaBranchId(j as usize)),
                        None => None,
                    });
                }
            }
        }
        match previous {
            Some(old_id) => {
                let new_branch = treehouse.tree.branch(new_id);
                let old_branch = treehouse.tree.branch(old_id);
                let message = concat("two branches share the same id `", new_branch.attributes.id.as_str());
                let message = concat(message.as_str(), "`");
                let mut labels: Vec<Label> = Vec::new();
                labels.push(
                    Label {
                        style: LabelStyle::Primary,
                        file_id: new_branch.file_id,
                        range: Range { start: new_branch.kind_span.start, end: new_branch.kind_span.end },
                        message: String::new(),
                    },
                );
                labels.push(
                    Label {
                        style: LabelStyle::Primary,
                        file_id: old_branch.file_id,
                        range: Range { start: old_branch.kind_span.start, end: old_branch.kind_span.end },
                        message: String::new(),
                    },
                );
                let d = Diagnostic {
                    severity: Severity::Warning,
                    code: Some(owned("sema")),
                    message,
                    labels,
                    notes: Vec::new(),
                };
                let ghost before = treehouse.diagnostics@;
                treehouse.diagnostics.push(d);
                proof {
                    assert(d.labels@.map_values(|l: Label| label_view(l)) =~= duplicate_id_diagnostic(
                        branch.attributes.id@,
                        branch,
                        old(treehouse).tree.branches_spec()[old_id.0 as int],
                    ).3);
                    assert(d.notes@.map_values(|n: String| n@) =~= Seq::<Seq<char>>::empty());
                    assert(diagnostics_view(treehouse.diagnostics@) =~= diagnostics_view(before).push(
                        diagnostic_view(d),
                    ));
                }
            },
            None => {},
        }
        new_id
    }
}

/// The parsed attributes of a branch and, in the same shape, of the branches under it. For a
/// branch without attributes the value is not used.
#[derive(Debug)]
pub struct ParsedAttributes {
    pub attributes: Result<Attributes, TomlParseError>,
    pub children: Vec<ParsedAttributes>,
}

/// `parsed` has the shape of `branch`, and its TOML errors can be placed in the file.
pub open spec fn parsed_fits(branch: BranchView, parsed: ParsedAttributes) -> bool
    decreases branch, 1nat,
{
    &&& branch.attributes matches Some(a) ==> toml_error_fits(a.data.start as int, parsed.attributes)
    &&& parsed_forest_fits(branch.children, parsed.children@)
}

pub open spec fn parsed_forest_fits(branches: Seq<BranchView>, parsed: Seq<ParsedAttributes>) -> bool
    decreases branches, 0nat,
{
    if branches.len() == 0 {
        parsed.len() == 0
    } else {
        &&& parsed.len() == branches.len()
        &&& parsed_forest_fits(branches.drop_last(), parsed.drop_last())
        &&& parsed_fits(branches.last(), parsed.last())
    }
}

proof fn lemma_forest_fits_index(branches: Seq<BranchView>, parsed: Seq<ParsedAttributes>, i: int)
    requires
        parsed_forest_fits(branches, parsed),
        0 <= i < branches.len(),
    ensures
        parsed_fits(branches[i], parsed[i]),
        branches.len() == parsed.len(),
    decreases branches.len(),
{
    if i < branches.len() - 1 {
        lemma_forest_fits_index(branches.drop_last(), parsed.drop_last(), i);
    }
}

/// The analysed tree grew by appending, and the diagnostics by appending too.
pub open spec fn context_grew(a: &Treehouse, b: &Treehouse) -> bool {
    &&& a.files == b.files
    &&& a.tree_paths == b.tree_paths
    &&& a.roots == b.roots
    &&& b.tree.branches_spec().len() <= a.tree.branches_spec().len()
    &&& a.tree.branches_spec().subrange(0, b.tree.branches_spec().len() as int) == b.tree.branches_spec()
    &&& b.diagnostics@.len() <= a.diagnostics@.len()
    &&& diagnostics_view(a.diagnostics@).subrange(0, b.diagnostics@.len() as int) == diagnostics_view(
        b.diagnostics@,
    )
}

/// No id is generated for a branch: it has attributes, and they either do not parse or give a
/// non-empty id.
pub open spec fn id_given(given: Option<crate::pull::Attributes>, parsed: Result<Attributes, TomlParseError>) -> bool {
    given is Some && match parsed {
        Ok(a) => a.id@.len() > 0,
        Err(_) => true,
    }
}

/// No id is generated for `branch` nor for any branch under it.
pub open spec fn ids_all_given(branch: BranchView, parsed: ParsedAttributes) -> bool
    decreases branch, 1nat,
{
    &&& id_given(branch.attributes, parsed.attributes)
    &&& ids_all_given_forest(branch.children, parsed.children@)
}

pub open spec fn ids_all_given_forest(branches: Seq<BranchView>, parsed: Seq<ParsedAttributes>) -> bool
    decreases branches, 0nat,
{
    if branches.len() == 0 {
        true
    } else {
        &&& ids_all_given_forest(branches.drop_last(), parsed.drop_last())
        &&& ids_all_given(branches.last(), parsed.last())
    }
}

proof fn lemma_ids_given_index(branches: Seq<BranchView>, parsed: Seq<ParsedAttributes>, i: int)
    requires
        ids_all_given_forest(branches, parsed),
        branches.len() == parsed.len(),
        0 <= i < branches.len(),
    ensures
        ids_all_given(branches[i], parsed[i]),
    decreases branches.len(),
{
    if i < branches.len() - 1 {
        lemma_ids_given_index(branches.drop_last(), parsed.drop_last(), i);
    }
}

/// An id made by the generator: `treehouse-missingno-` and the text of a ULID.
pub open spec fn is_generated_id(id: Seq<char>) -> bool {
    exists|u: Seq<char>| is_ulid_text(u) && id == "treehouse-missingno-"@ + u
}

/// `a` is what the analysis makes of a branch's attributes, given as `given` and parsed into
/// `parsed`: the defaults where they do not parse, else what was parsed, with a generated id
/// where none was given.
pub open spec fn analysed_attributes(
    given: Option<crate::pull::Attributes>,
    parsed: Result<Attributes, TomlParseError>,
    a: Attributes,
) -> bool {
    match given {
        None => default_but_id(a) && is_generated_id(a.id@),
        Some(_) => match parsed {
            Err(_) => is_default_attributes(a),
            Ok(p) => same_but_id(a, p) && if p.id@.len() > 0 {
                a.id@ == p.id@
            } else {
                is_generated_id(a.id@)
            },
        },
    }
}

/// Branch `id` of `tree` was analysed from `v`, whose attributes were parsed into `parsed`,
/// in file `file_id` with tree path `tree_path`; and so, in order, was each branch under it
/// from the branch under `v` in the same place.
pub open spec fn analysed_from(
    tree: Seq<SemaBranch>,
    id: int,
    v: BranchView,
    parsed: ParsedAttributes,
    file_id: usize,
    tree_path: Seq<char>,
) -> bool
    decreases v, 1nat,
{
    let b = tree[id];
    &&& 0 <= id < tree.len()
    &&& b.file_id == file_id
    &&& b.indent_level == v.indent_level
    &&& b.kind == v.kind
    &&& b.kind_span == v.kind_span
    &&& b.content == v.content
    &&& analysed_attributes(v.attributes, parsed.attributes, b.attributes)
    &&& b.html_id@ == tree_path + ":"@ + b.attributes.id@
    &&& analysed_forest_from(tree, id, b.children@, v.children, parsed.children@, file_id, tree_path)
}

/// Each of `ids` was analysed from the branch of `vs` in the same place, and comes before
/// `parent`.
pub open spec fn analysed_forest_from(
    tree: Seq<SemaBranch>,
    parent: int,
    ids: Seq<SemaBranchId>,
    vs: Seq<BranchView>,
    parsed: Seq<ParsedAttributes>,
    file_id: usize,
    tree_path: Seq<char>,
) -> bool
    decreases vs, 0nat,
{
    if vs.len() == 0 {
        ids.len() == 0
    } else {
        &&& ids.len() == vs.len()
        &&& analysed_forest_from(tree, parent, ids.drop_last(), vs.drop_last(), parsed.drop_last(), file_id, tree_path)
        &&& ids.last().0 < parent
        &&& analysed_from(tree, ids.last().0 as int, vs.last(), parsed.last(), file_id, tree_path)
    }
}

/// What was analysed stays so when branches are added after it.
proof fn lemma_analysed_grow(
    tree: Seq<SemaBranch>,
    tree2: Seq<SemaBranch>,
    id: int,
    v: BranchView,
    parsed: ParsedAttributes,
    file_id: usize,
    tree_path: Seq<char>,
)
    requires
        analysed_from(tree, id, v, parsed, file_id, tree_path),
        tree.len() <= tree2.len(),
        tree2.subrange(0, tree.len() as int) == tree,
    ensures
        analysed_from(tree2, id, v, parsed, file_id, tree_path),
    decreases v, 1nat,
{
    assert(tree2[id] == tree2.subrange(0, tree.len() as int)[id]);
    lemma_analysed_forest_grow(
        tree,
        tree2,
        id,
        id,
        tree[id].children@,
        v.children,
        parsed.children@,
        file_id,
        tree_path,
    );
}

proof fn lemma_analysed_forest_grow(
    tree: Seq<SemaBranch>,
    tree2: Seq<SemaBranch>,
    parent: int,
    parent2: int,
    ids: Seq<SemaBranchId>,
    vs: Seq<BranchView>,
    parsed: Seq<ParsedAttributes>,
    file_id: usize,
    tree_path: Seq<char>,
)
    requires
        analysed_forest_from(tree, parent, ids, vs, parsed, file_id, tree_path),
        tree.len() <= tree2.len(),
        tree2.subrange(0, tree.len() as int) == tree,
        parent <= parent2,
    ensures
        analysed_forest_from(tree2, parent2, ids, vs, parsed, file_id, tree_path),
    decreases vs, 0nat,
{
    if vs.len() > 0 {
        lemma_analysed_forest_grow(
            tree,
            tree2,
            parent,
            parent2,
            ids.drop_last(),
            vs.drop_last(),
            parsed.drop_last(),
            file_id,
            tree_path,
        );
        lemma_analysed_grow(tree, tree2, ids.last().0 as int, vs.last(), parsed.last(), file_id, tree_path);
    }
}

/// One more analysed branch after the others.
proof fn lemma_analysed_forest_push(
    tree: Seq<SemaBranch>,
    parent: int,
    ids: Seq<SemaBranchId>,
    vs: Seq<BranchView>,
    parsed: Seq<ParsedAttributes>,
    id: SemaBranchId,
    v: BranchView,
    p: ParsedAttributes,
    file_id: usize,
    tree_path: Seq<char>,
)
    requires
        analysed_forest_from(tree, parent, ids, vs, parsed, file_id, tree_path),
        analysed_from(tree, id.0 as int, v, p, file_id, tree_path),
        id.0 < parent,
    ensures
        analysed_forest_from(tree, parent, ids.push(id), vs.push(v), parsed.push(p), file_id, tree_path),
{
    assert(ids.push(id).drop_last() =~= ids);
    assert(vs.push(v).drop_last() =~= vs);
    assert(parsed.push(p).drop_last() =~= parsed);
}

/// The diagnostics about the attributes of branch `v` of file `file_id` named `filename`,
/// parsed into `parsed` and analysed into `a`: the TOML error where they do not parse; else a
/// warning with the generated id where none was given, then those about a link.
pub open spec fn attribute_diagnostics(
    file_id: usize,
    filename: Seq<char>,
    v: BranchView,
    parsed: Result<Attributes, TomlParseError>,
    a: Attributes,
) -> Seq<(Severity, Option<Seq<char>>, Seq<char>, Seq<(LabelStyle, usize, int, int, Seq<char>)>, Seq<Seq<char>>)> {
    let generated = if id_given(v.attributes, parsed) {
        Seq::empty()
    } else {
        seq![missing_id_diagnostic(file_id, warning_span(v).0, warning_span(v).1, a.id@, filename)]
    };
    match (v.attributes, parsed) {
        (Some(at), Err(e)) => seq![
            toml_diagnostic(TomlError { message: e.message, span: e.span, file_id, input_range: at.data }),
        ],
        _ => generated + link_diagnostics(file_id, v, a.content),
    }
}

/// The diagnostics that the analysis of branch `id` of `tree`, made from `v` with its
/// attributes parsed into `parsed`, raises: those about its attributes, then those of the
/// branches under it in order, then a warning when an earlier branch has its id, against the
/// last such one.
pub open spec fn subtree_diagnostics(
    tree: Seq<SemaBranch>,
    id: int,
    v: BranchView,
    parsed: ParsedAttributes,
    file_id: usize,
    filename: Seq<char>,
) -> Seq<(Severity, Option<Seq<char>>, Seq<char>, Seq<(LabelStyle, usize, int, int, Seq<char>)>, Seq<Seq<char>>)>
    decreases v, 1nat,
{
    let b = tree[id];
    attribute_diagnostics(file_id, filename, v, parsed.attributes, b.attributes) + forest_diagnostics(
        tree,
        b.children@,
        v.children,
        parsed.children@,
        file_id,
        filename,
    ) + match last_with_id(tree, b.attributes.id@, id) {
        Some(j) => seq![duplicate_id_diagnostic(b.attributes.id@, b, tree[j])],
        None => Seq::empty(),
    }
}

/// The diagnostics of the analyses of branches `ids`, made from `vs`, one after the other.
pub open spec fn forest_diagnostics(
    tree: Seq<SemaBranch>,
    ids: Seq<SemaBranchId>,
    vs: Seq<BranchView>,
    parsed: Seq<ParsedAttributes>,
    file_id: usize,
    filename: Seq<char>,
) -> Seq<(Severity, Option<Seq<char>>, Seq<char>, Seq<(LabelStyle, usize, int, int, Seq<char>)>, Seq<Seq<char>>)>
    decreases vs, 0nat,
{
    if vs.len() == 0 {
        Seq::empty()
    } else {
        forest_diagnostics(tree, ids.drop_last(), vs.drop_last(), parsed.drop_last(), file_id, filename)
            + subtree_diagnostics(tree, ids.last().0 as int, vs.last(), parsed.last(), file_id, filename)
    }
}

/// The diagnostics of what was analysed stay the same when branches are added after it.
proof fn lemma_diagnostics_grow(
    tree: Seq<SemaBranch>,
    tree2: Seq<SemaBranch>,
    id: int,
    v: BranchView,
    parsed: ParsedAttributes,
    file_id: usize,
    filename: Seq<char>,
    tree_path: Seq<char>,
)
    requires
        analysed_from(tree, id, v, parsed, file_id, tree_path),
        tree.len() <= tree2.len(),
        tree2.subrange(0, tree.len() as int) == tree,
    ensures
        subtree_diagnostics(tree2, id, v, parsed, file_id, filename) == subtree_diagnostics(
            tree,
            id,
            v,
            parsed,
            file_id,
            filename,
        ),
    decreases v, 1nat,
{
    let b = tree[id];
    assert(tree2[id] == tree2.subrange(0, tree.len() as int)[id]);
    assert(tree2.subrange(0, id) =~= tree.subrange(0, id)) by {
        assert forall|q: int| 0 <= q < id implies tree2.subrange(0, id)[q] == tree.subrange(0, id)[q] by {
            assert(tree2[q] == tree2.subrange(0, tree.len() as int)[q]);
        }
    }
    lemma_last_with_id_prefix(tree2, tree, b.attributes.id@, id);
    lemma_last_with_id_bounds(tree, b.attributes.id@, id);
    if let Some(j) = last_with_id(tree, b.attributes.id@, id) {
        assert(tree2[j] == tree2.subrange(0, tree.len() as int)[j]);
    }
    lemma_forest_diagnostics_grow(
        tree,
        tree2,
        id,
        b.children@,
        v.children,
        parsed.children@,
        file_id,
        filename,
        tree_path,
    );
}

proof fn lemma_forest_diagnostics_grow(
    tree: Seq<SemaBranch>,
    tree2: Seq<SemaBranch>,
    parent: int,
    ids: Seq<SemaBranchId>,
    vs: Seq<BranchView>,
    parsed: Seq<ParsedAttributes>,
    file_id: usize,
    filename: Seq<char>,
    tree_path: Seq<char>,
)
    requires
        analysed_forest_from(tree, parent, ids, vs, parsed, file_id, tree_path),
        tree.len() <= tree2.len(),
        tree2.subrange(0, tree.len() as int) == tree,
    ensures
        forest_diagnostics(tree2, ids, vs, parsed, file_id, filename) == forest_diagnostics(
            tree,
            ids,
            vs,
            parsed,
            file_id,
            filename,
        ),
    decreases vs, 0nat,
{
    if vs.len() > 0 {
        lemma_forest_diagnostics_grow(
            tree,
            tree2,
            parent,
            ids.drop_last(),
            vs.drop_last(),
            parsed.drop_last(),
            file_id,
            filename,
            tree_path,
        );
        lemma_diagnostics_grow(tree, tree2, ids.last().0 as int, vs.last(), parsed.last(), file_id, filename, tree_path);
    }
}

/// The diagnostics of one more analysed branch come after those of the others.
proof fn lemma_forest_diagnostics_push(
    tree: Seq<SemaBranch>,
    ids: Seq<SemaBranchId>,
    vs: Seq<BranchView>,
    parsed: Seq<ParsedAttributes>,
    id: SemaBranchId,
    v: BranchView,
    p: ParsedAttributes,
    file_id: usize,
    filename: Seq<char>,
)
    ensures
        forest_diagnostics(tree, ids.push(id), vs.push(v), parsed.push(p), file_id, filename) == forest_diagnostics(
            tree,
            ids,
            vs,
            parsed,
            file_id,
            filename,
        ) + subtree_diagnostics(tree, id.0 as int, v, p, file_id, filename),
{
    assert(ids.push(id).drop_last() =~= ids);
    assert(vs.push(v).drop_last() =~= vs);
    assert(parsed.push(p).drop_last() =~= parsed);
}

/// The last of the first `n` branches whose id is `k`.
pub open spec fn last_with_id(branches: Seq<SemaBranch>, k: Seq<char>, n: int) -> Option<int>
    decreases n,
{
    if n <= 0 {
        None
    } else if branches[n - 1].attributes.id@ == k {
        Some(n - 1)
    } else {
        last_with_id(branches, k, n - 1)
    }
}

/// The named-id index points each id at the last branch that has it.
pub open spec fn named_ids_last(t: &Treehouse) -> bool {
    forall|k: Seq<char>|
        #[trigger] t.branches_by_named_id.get_spec(k) == match last_with_id(
            t.tree.branches_spec(),
            k,
            t.tree.branches_spec().len() as int,
        ) {
            Some(j) => Some(SemaBranchId(j as usize)),
            None => None,
        }
}

/// The last branch with an id depends on the first branches only.
proof fn lemma_last_with_id_prefix(a: Seq<SemaBranch>, b: Seq<SemaBranch>, k: Seq<char>, n: int)
    requires
        n <= a.len(),
        n <= b.len(),
        a.subrange(0, n) == b.subrange(0, n),
    ensures
        last_with_id(a, k, n) == last_with_id(b, k, n),
    decreases n,
{
    if n > 0 {
        assert(a[n - 1] == a.subrange(0, n)[n - 1]);
        assert(b[n - 1] == b.subrange(0, n)[n - 1]);
        assert(a.subrange(0, n - 1) =~= a.subrange(0, n).subrange(0, n - 1));
        assert(b.subrange(0, n - 1) =~= b.subrange(0, n).subrange(0, n - 1));
        lemma_last_with_id_prefix(a, b, k, n - 1);
    }
}

/// The last branch with an id is one of the first branches and has that id.
proof fn lemma_last_with_id_bounds(branches: Seq<SemaBranch>, k: Seq<char>, n: int)
    ensures
        last_with_id(branches, k, n) matches Some(j) ==> 0 <= j < n && branches[j].attributes.id@ == k,
    decreases n,
{
    if n > 0 {
        lemma_last_with_id_bounds(branches, k, n - 1);
    }
}

impl SemaBranch {
    /// Analyses `branch` and the branches under it, with their attributes as parsed into
    /// `parsed`, adds them to the tree (children before parents) and returns the branch's
    /// index. The branch is indexed by its id; when an earlier branch had that id, the last
    /// such one and this branch are reported as sharing it. The diagnostics come in the order
    /// of the analysis: a branch's attributes, the branches under it, its shared id. None only
    /// when an id had to be generated and the generator had run out of ids: where every branch
    /// has its id given, the analysis succeeds.
    pub fn from_branch(treehouse: &mut Treehouse, file_id: usize, branch: &Branch, parsed: ParsedAttributes) -> (r:
        Option<SemaBranchId>)
        requires
            old(treehouse).wf(),
            old(treehouse).tree.wf(),
            named_ids_valid(old(treehouse)),
            named_ids_last(old(treehouse)),
            file_id < old(treehouse).files_view().len(),
            old(treehouse).tree_path_spec(file_id as int) is Some,
            parsed_fits(branch.view_tree(), parsed),
        ensures
            final(treehouse).wf(),
            final(treehouse).tree.wf(),
            named_ids_valid(final(treehouse)),
            named_ids_last(final(treehouse)),
            context_grew(final(treehouse), old(treehouse)),
            ids_all_given(branch.view_tree(), parsed) ==> r is Some,
            r matches Some(id) ==> {
                let tree = final(treehouse).tree.branches_spec();
                let b = tree[id.0 as int];
                &&& id.0 + 1 == tree.len()
                &&& analysed_from(
                    tree,
                    id.0 as int,
                    branch.view_tree(),
                    parsed,
                    file_id,
                    old(treehouse).tree_path_spec(file_id as int)->Some_0,
                )
                &&& final(treehouse).branches_by_named_id.get_spec(b.attributes.id@) == Some(id)
                &&& diagnostics_view(final(treehouse).diagnostics@) == diagnostics_view(old(treehouse).diagnostics@)
                    + subtree_diagnostics(
                    tree,
                    id.0 as int,
                    branch.view_tree(),
                    parsed,
                    file_id,
                    old(treehouse).files_view()[file_id as int].0,
                )
                &&& last_with_id(tree, b.attributes.id@, id.0 as int) matches Some(j) ==> diagnostics_view(
                    final(treehouse).diagnostics@,
                ).last() == duplicate_id_diagnostic(b.attributes.id@, b, tree[j])
            },
        decreases branch.view_tree(), 1nat,
    {
        let ghost start = *treehouse;
        proof {
            assert(start == *old(treehouse));
        }
        let ghost v = branch.view_tree();
        let ghost tp = start.tree_path_spec(file_id as int)->Some_0;
        let ghost fname = start.files_view()[file_id as int].0;
        proof {
            lemma_views_of(branch.children@);
        }
        let ParsedAttributes { attributes: parsed_attributes, children: parsed_children } = parsed;
        let attributes = match SemaBranch::parse_attributes(treehouse, file_id, branch, parsed_attributes) {
            Some(a) => a,
            None => {
                proof {
                    assert(treehouse.tree.branches_spec().subrange(0, start.tree.branches_spec().len() as int)
                        =~= start.tree.branches_spec());
                    assert(diagnostics_view(treehouse.diagnostics@).subrange(0, start.diagnostics@.len() as int)
                        =~= diagnostics_view(start.diagnostics@));
                }
                return None;
            },
        };
        let ghost after_attributes = diagnostics_view(treehouse.diagnostics@);
        proof {
            assert(analysed_attributes(branch.attributes, parsed.attributes, attributes));
            assert(after_attributes =~= diagnostics_view(start.diagnostics@) + attribute_diagnostics(
                file_id,
                fname,
                v,
                parsed.attributes,
                attributes,
            ));
            assert(diagnostics_view(treehouse.diagnostics@).subrange(0, start.diagnostics@.len() as int)
                =~= diagnostics_view(start.diagnostics@));
            assert(treehouse.files == start.files);
            assert(treehouse.tree_paths == start.tree_paths);
            assert(treehouse.roots == start.roots);
            assert(start.tree.branches_spec().len() <= treehouse.tree.branches_spec().len());
            assert(treehouse.tree.branches_spec().subrange(0, start.tree.branches_spec().len() as int)
                =~= start.tree.branches_spec());
            assert(diagnostics_view(treehouse.diagnostics@).len() == treehouse.diagnostics@.len());
            assert(diagnostics_view(start.diagnostics@).len() == start.diagnostics@.len());
            assert(start.diagnostics@.len() <= treehouse.diagnostics@.len());
        }
        let tree_path = match treehouse.tree_path(file_id) {
            Some(p) => p,
            None => "",
        };
        let html_id = concat(tree_path, ":");
        let html_id = concat(html_id.as_str(), attributes.id.as_str());
        let mut children: Vec<SemaBranchId> = Vec::new();
        let mut parsed_children = parsed_children;
        let ghost parsed_in_order = parsed_children@;
        let mut i: usize = 0;
        while i < branch.children.len()
            invariant
                i <= branch.children@.len(),
                v == branch.view_tree(),
                views_of(branch.children@) == v.children,
                v.children.len() == branch.children@.len(),
                forall|j: int| 0 <= j < v.children.len() ==> #[trigger] v.children[j] == branch.children@[j].view_tree(),
                parsed_forest_fits(v.children, parsed_in_order),
                parsed_in_order == parsed.children@,
                parsed_children@ == parsed_in_order.skip(i as int),
                start == *old(treehouse),
                tp == start.tree_path_spec(file_id as int)->Some_0,
                fname == start.files_view()[file_id as int].0,
                after_attributes == diagnostics_view(start.diagnostics@) + attribute_diagnostics(
                    file_id,
                    fname,
                    v,
                    parsed.attributes,
                    attributes,
                ),
                diagnostics_view(treehouse.diagnostics@) == after_attributes + forest_diagnostics(
                    treehouse.tree.branches_spec(),
                    children@,
                    v.children.take(i as int),
                    parsed_in_order.take(i as int),
                    file_id,
                    fname,
                ),
                treehouse.wf(),
                treehouse.tree.wf(),
                named_ids_valid(treehouse),
                named_ids_last(treehouse),
                file_id < treehouse.files_view().len(),
                treehouse.tree_path_spec(file_id as int) is Some,
                context_grew(treehouse, &start),
                children@.len() == i,
                forall|j: int|
                    0 <= j < i ==> (#[trigger] children@[j]).0 < treehouse.tree.branches_spec().len(),
                analysed_forest_from(
                    treehouse.tree.branches_spec(),
                    treehouse.tree.branches_spec().len() as int,
                    children@,
                    v.children.take(i as int),
                    parsed_in_order.take(i as int),
                    file_id,
                    tp,
                ),
            decreases branch.children@.len() - i,
        {
            let ghost before = *treehouse;
            let ghost children_before = children@;
            let child_parsed = parsed_children.remove(0);
            proof {
                assert(parsed_children@ =~= parsed_in_order.skip(i + 1));
                lemma_forest_fits_index(v.children, parsed_in_order, i as int);
                assert(child_parsed == parsed_in_order[i as int]);
                assert(parsed_fits(v.children[i as int], parsed_in_order[i as int]));
                assert(decreases_to!(v => v.children));
                assert(decreases_to!(v.children => v.children[i as int]));
            }
            match SemaBranch::from_branch(treehouse, file_id, &branch.children[i], child_parsed) {
                Some(id) => {
                    children.push(id);
                },
                None => {
                    proof {
                        lemma_context_grew_trans(treehouse, &before, &start);
                        if ids_all_given(v, parsed) {
                            lemma_ids_given_index(v.children, parsed_in_order, i as int);
                        }
                    }
                    return None;
                },
            }
            proof {
                lemma_context_grew_trans(treehouse, &before, &start);
                assert forall|j: int| 0 <= j < children@.len() implies (#[trigger] children@[j]).0
                    < treehouse.tree.branches_spec().len() by {
                    if j < i {
                        assert(before.tree.branches_spec().len() <= treehouse.tree.branches_spec().len());
                    }
                }
                let t0 = before.tree.branches_spec();
                let t1 = treehouse.tree.branches_spec();
                let id = children@[i as int];
                assert(children@.drop_last() =~= children_before);
                lemma_forest_diagnostics_grow(
                    t0,
                    t1,
                    t0.len() as int,
                    children_before,
                    v.children.take(i as int),
                    parsed_in_order.take(i as int),
                    file_id,
                    fname,
                    tp,
                );
                lemma_forest_diagnostics_push(
                    t1,
                    children_before,
                    v.children.take(i as int),
                    parsed_in_order.take(i as int),
                    id,
                    v.children[i as int],
                    parsed_in_order[i as int],
                    file_id,
                    fname,
                );
                lemma_analysed_forest_grow(
                    t0,
                    t1,
                    t0.len() as int,
                    t1.len() as int,
                    children@.drop_last(),
                    v.children.take(i as int),
                    parsed_in_order.take(i as int),
                    file_id,
                    tp,
                );
                lemma_analysed_forest_push(
                    t1,
                    t1.len() as int,
                    children@.drop_last(),
                    v.children.take(i as int),
                    parsed_in_order.take(i as int),
                    id,
                    v.children[i as int],
                    parsed_in_order[i as int],
                    file_id,
                    tp,
                );
                assert(children@.drop_last().push(id) =~= children@);
                assert(children_before.push(id) =~= children@);
                assert(v.children.take(i as int).push(v.children[i as int]) =~= v.children.take(i + 1));
                assert(parsed_in_order.take(i as int).push(parsed_in_order[i as int]) =~= parsed_in_order.take(
                    i + 1,
                ));
            }
            i = i + 1;
        }
        proof {
            assert(v.children.take(i as int) =~= v.children);
            assert(parsed_in_order.take(i as int) =~= parsed_in_order);
            assert(diagnostics_view(treehouse.diagnostics@) == after_attributes + forest_diagnostics(
                treehouse.tree.branches_spec(),
                children@,
                v.children,
                parsed_in_order,
                file_id,
                fname,
            ));
            assert(analysed_forest_from(
                treehouse.tree.branches_spec(),
                treehouse.tree.branches_spec().len() as int,
                children@,
                v.children,
                parsed_in_order,
                file_id,
                tp,
            ));
        }
        let sema_branch = SemaBranch {
            file_id,
            indent_level: branch.indent_level,
            kind: branch.kind,
            kind_span: Range { start: branch.kind_span.start, end: branch.kind_span.end },
            content: Range { start: branch.content.start, end: branch.content.end },
            html_id,
            attributes,
            children,
        };
        let ghost before = *treehouse;
        let id = SemaBranch::register(treehouse, sema_branch);
        proof {
            let t0 = before.tree.branches_spec();
            let t1 = treehouse.tree.branches_spec();
            let k = sema_branch.attributes.id@;
            assert(t1.subrange(0, t0.len() as int) =~= t0);
            assert(t0.subrange(0, t0.len() as int) =~= t0);
            assert(treehouse.tree.branches_spec().subrange(0, before.tree.branches_spec().len() as int)
                =~= before.tree.branches_spec());
            assert(diagnostics_view(treehouse.diagnostics@).subrange(0, before.diagnostics@.len() as int)
                =~= diagnostics_view(before.diagnostics@));
            assert(treehouse.files == before.files);
            assert(treehouse.tree_paths == before.tree_paths);
            assert(treehouse.roots == before.roots);
            assert(before.tree.branches_spec().len() <= treehouse.tree.branches_spec().len());
            assert(diagnostics_view(treehouse.diagnostics@).len() == treehouse.diagnostics@.len());
            assert(diagnostics_view(before.diagnostics@).len() == before.diagnostics@.len());
            assert(before.diagnostics@.len() <= treehouse.diagnostics@.len());
            lemma_context_grew_trans(treehouse, &before, &start);
            lemma_analysed_forest_grow(
                t0,
                t1,
                t0.len() as int,
                id.0 as int,
                sema_branch.children@,
                v.children,
                parsed_in_order,
                file_id,
                tp,
            );
            assert(t1[id.0 as int] == sema_branch);
            assert(analysed_from(t1, id.0 as int, v, parsed, file_id, tp));
            lemma_last_with_id_prefix(t1, t0, k, t0.len() as int);
            lemma_last_with_id_bounds(t0, k, t0.len() as int);
            lemma_forest_diagnostics_grow(
                t0,
                t1,
                t0.len() as int,
                sema_branch.children@,
                v.children,
                parsed_in_order,
                file_id,
                fname,
                tp,
            );
            assert(before.branches_by_named_id.get_spec(k) == match last_with_id(t0, k, t0.len() as int) {
                Some(j) => Some(SemaBranchId(j as usize)),
                None => None,
            });
            let dup: Seq<(Severity, Option<Seq<char>>, Seq<char>, Seq<(LabelStyle, usize, int, int, Seq<char>)>, Seq<Seq<char>>)> =
                match last_with_id(t1, k, id.0 as int) {
                Some(j) => seq![duplicate_id_diagnostic(k, sema_branch, t1[j])],
                None => Seq::empty(),
            };
            if let Some(j) = last_with_id(t1, k, id.0 as int) {
                assert(before.branches_by_named_id.get_spec(k) == Some(SemaBranchId(j as usize)));
                assert(t1[j] == t0[j]);
                assert(diagnostics_view(treehouse.diagnostics@) =~= diagnostics_view(before.diagnostics@) + dup);
            } else {
                assert(diagnostics_view(treehouse.diagnostics@) =~= diagnostics_view(before.diagnostics@) + dup);
            }
            assert(subtree_diagnostics(t1, id.0 as int, v, parsed, file_id, fname) == attribute_diagnostics(
                file_id,
                fname,
                v,
                parsed.attributes,
                attributes,
            ) + forest_diagnostics(t1, sema_branch.children@, v.children, parsed.children@, file_id, fname) + dup);
            assert(diagnostics_view(treehouse.diagnostics@) =~= diagnostics_view(start.diagnostics@)
                + subtree_diagnostics(t1, id.0 as int, v, parsed, file_id, fname));
        }
        Some(id)
    }
}

/// Growing is transitive.
proof fn lemma_context_grew_trans(a: &Treehouse, b: &Treehouse, c: &Treehouse)
    requires
        context_grew(a, b),
        context_grew(b, c),
    ensures
        context_grew(a, c),
{
    assert(a.tree.branches_spec().subrange(0, c.tree.branches_spec().len() as int) =~= b.tree.branches_spec().subrange(
        0,
        c.tree.branches_spec().len() as int,
    ));
    assert(diagnostics_view(a.diagnostics@).subrange(0, c.diagnostics@.len() as int) =~= diagnostics_view(
        b.diagnostics@,
    ).subrange(0, c.diagnostics@.len() as int));
}

/// The diagnostics about a tree's thumbnail: one when it has no alt text, and one when no
/// picture has its id.
pub open spec fn thumbnail_diagnostics(config: Config, file_id: usize, percent: Range<usize>, thumbnail: Option<Picture>) -> Seq<
    (Severity, Option<Seq<char>>, Seq<char>, Seq<(LabelStyle, usize, int, int, Seq<char>)>, Seq<Seq<char>>),
> {
    match thumbnail {
        None => Seq::empty(),
        Some(t) => {
            let no_alt = if t.alt is None {
                seq![
                    labelled(
                        Severity::Warning,
                        "sema"@,
                        "thumbnail without alt text"@,
                        file_id,
                        percent.start as int,
                        percent.end as int,
                        seq![
                            "note: alt text is important for people using screen readers"@,
                            "help: add alt text using the thumbnail.alt key"@,
                        ],
                    ),
                ]
            } else {
                Seq::empty()
            };
            let missing = if config.pics.get_spec(t.id@) is None {
                seq![
                    labelled(
                        Severity::Warning,
                        "sema"@,
                        "thumbnail picture with id '"@ + t.id@ + "' does not exist"@,
                        file_id,
                        percent.start as int,
                        percent.end as int,
                        seq!["note: check your id for typos"@],
                    ),
                ]
            } else {
                Seq::empty()
            };
            no_alt + missing
        },
    }
}

/// The root attributes are the same but for their title.
pub open spec fn same_but_title(a: RootAttributes, b: RootAttributes) -> bool {
    &&& a.template == b.template
    &&& a.description == b.description
    &&& a.thumbnail == b.thumbnail
    &&& a.scripts == b.scripts
    &&& a.styles == b.styles
    &&& a.feed == b.feed
}

/// `r` is what the analysis makes of a tree's attributes, given as `given` and parsed into
/// `parsed`: the defaults where they do not parse; else what was parsed, or the defaults where
/// none were given, with the tree path for an empty title.
pub open spec fn analysed_root_attributes(
    given: Option<crate::pull::Attributes>,
    parsed: Result<RootAttributes, TomlParseError>,
    tree_path: Seq<char>,
    r: RootAttributes,
) -> bool {
    match given {
        None => r.title@ == tree_path && r.template is None && r.description is None && r.thumbnail is None
            && r.scripts@.len() == 0 && r.styles@.len() == 0 && r.feed is None,
        Some(_) => match parsed {
            Err(_) => is_default_root_attributes(r),
            Ok(p) => same_but_title(r, p) && r.title@ == if p.title@.len() == 0 {
                tree_path
            } else {
                p.title@
            },
        },
    }
}

/// The diagnostics about the attributes of a tree of file `file_id`, given as `given` and
/// parsed into `parsed`: the TOML error where they do not parse, else those about the
/// thumbnail.
pub open spec fn root_attribute_diagnostics(
    config: Config,
    file_id: usize,
    given: Option<crate::pull::Attributes>,
    parsed: Result<RootAttributes, TomlParseError>,
) -> Seq<(Severity, Option<Seq<char>>, Seq<char>, Seq<(LabelStyle, usize, int, int, Seq<char>)>, Seq<Seq<char>>)> {
    match given {
        None => Seq::empty(),
        Some(at) => match parsed {
            Err(e) => seq![
                toml_diagnostic(TomlError { message: e.message, span: e.span, file_id, input_range: at.data }),
            ],
            Ok(p) => thumbnail_diagnostics(config, file_id, at.percent, p.thumbnail),
        },
    }
}

impl SemaRoots {
    /// Checks the attributes of a tree, as parsed from its top-level attribute text into
    /// `parsed`, and reports what is wrong with them. Attributes that do not parse are
    /// reported and replaced by the defaults; otherwise an empty title becomes the tree's path,
    /// and a thumbnail without alt text or whose picture does not exist is reported.
    pub fn parse_attributes(
        treehouse: &mut Treehouse,
        config: &Config,
        file_id: usize,
        attributes: &Option<crate::pull::Attributes>,
        parsed: Result<RootAttributes, TomlParseError>,
    ) -> (r: RootAttributes)
        requires
            old(treehouse).wf(),
            file_id < old(treehouse).files_view().len(),
            old(treehouse).tree_path_spec(file_id as int) is Some,
            attributes matches Some(a) ==> (parsed matches Err(e) ==> (e.span matches Some(span) ==> a.data.start
                + span.end <= usize::MAX && a.data.start + span.start <= usize::MAX)),
        ensures
            same_context(final(treehouse), old(treehouse)),
            final(treehouse).wf(),
            analysed_root_attributes(*attributes, parsed, old(treehouse).tree_path_spec(file_id as int)->Some_0, r),
            diagnostics_view(final(treehouse).diagnostics@) == diagnostics_view(old(treehouse).diagnostics@)
                + root_attribute_diagnostics(*config, file_id, *attributes, parsed),
            (attributes is Some && parsed is Err) ==> (is_default_root_attributes(r) && diagnostics_view(
                final(treehouse).diagnostics@,
            ) == diagnostics_view(old(treehouse).diagnostics@).push(
                toml_diagnostic(
                    TomlError {
                        message: parsed->Err_0.message,
                        span: parsed->Err_0.span,
                        file_id,
                        input_range: attributes->Some_0.data,
                    },
                ),
            )),
            attributes is None ==> (r.title@ == old(treehouse).tree_path_spec(file_id as int)->Some_0
                && r.template is None && r.description is None && r.thumbnail is None && r.scripts@.len()
                == 0 && r.styles@.len() == 0 && r.feed is None && final(treehouse).diagnostics
                == old(treehouse).diagnostics),
            (attributes is Some && parsed is Ok) ==> {
                let p = parsed->Ok_0;
                &&& same_but_title(r, p)
                &&& r.title@ == if p.title@.len() == 0 {
                    old(treehouse).tree_path_spec(file_id as int)->Some_0
                } else {
                    p.title@
                }
                &&& diagnostics_view(final(treehouse).diagnostics@) == diagnostics_view(
                    old(treehouse).diagnostics@,
                ) + thumbnail_diagnostics(*config, file_id, attributes->Some_0.percent, p.thumbnail)
            },
    {
        let ghost old_diagnostics = diagnostics_view(treehouse.diagnostics@);
        let ghost failed = attributes is Some && parsed is Err;
        let mut root_attributes: RootAttributes;
        let percent: Range<usize>;
        match attributes {
            Some(at) => {
                percent = Range { start: at.percent.start, end: at.percent.end };
                match parsed {
                    Ok(a) => {
                        root_attributes = a;
                    },
                    Err(e) => {
                        let d = toml_error_to_diagnostic(
                            TomlError {
                                message: e.message,
                                span: e.span,
                                file_id,
                                input_range: Range { start: at.data.start, end: at.data.end },
                            },
                        );
                        treehouse.diagnostics.push(d);
                        proof {
                            assert(diagnostics_view(treehouse.diagnostics@) =~= old_diagnostics.push(
                                diagnostic_view(d),
                            ));
                        }
                        return RootAttributes::default();
                    },
                }
            },
            None => {
                percent = Range { start: 0, end: 0 };
                root_attributes = RootAttributes::default();
            },
        }
        assert(!failed);
        let ghost given = root_attributes;
        if root_attributes.title.as_str().is_empty() {
            let tree_path = match treehouse.tree_path(file_id) {
                Some(p) => p,
                None => "",
            };
            root_attributes.title = owned(tree_path);
        }
        let ghost before = treehouse.diagnostics@;
        match &root_attributes.thumbnail {
            Some(thumbnail) => {
                if thumbnail.alt.is_none() {
                    let mut notes: Vec<String> = Vec::new();
                    notes.push(owned("note: alt text is important for people using screen readers"));
                    notes.push(owned("help: add alt text using the thumbnail.alt key"));
                    let d = labelled_diagnostic(
                        Severity::Warning,
                        "sema",
                        owned("thumbnail without alt text"),
                        file_id,
                        Range { start: percent.start, end: percent.end },
                        notes,
                    );
                    let ghost b = treehouse.diagnostics@;
                    treehouse.diagnostics.push(d);
                    proof {
                        assert(notes@.map_values(|n: String| n@) =~= seq![
                            "note: alt text is important for people using screen readers"@,
                            "help: add alt text using the thumbnail.alt key"@,
                        ]);
                        assert(diagnostics_view(treehouse.diagnostics@) =~= diagnostics_view(b).push(
                            diagnostic_view(d),
                        ));
                    }
                }
                let ghost middle = treehouse.diagnostics@;
                if !config.pics.contains_key(thumbnail.id.as_str()) {
                    let message = concat("thumbnail picture with id '", thumbnail.id.as_str());
                    let message = concat(message.as_str(), "' does not exist");
                    let mut notes: Vec<String> = Vec::new();
                    notes.push(owned("note: check your id for typos"));
                    let d = labelled_diagnostic(
                        Severity::Warning,
                        "sema",
                        message,
                        file_id,
                        Range { start: percent.start, end: percent.end },
                        notes,
                    );
                    treehouse.diagnostics.push(d);
                    proof {
                        assert(notes@.map_values(|n: String| n@) =~= seq!["note: check your id for typos"@]);
                        assert(diagnostics_view(treehouse.diagnostics@) =~= diagnostics_view(middle).push(
                            diagnostic_view(d),
                        ));
                    }
                }
                proof {
                    assert(diagnostics_view(treehouse.diagnostics@) =~= diagnostics_view(before)
                        + thumbnail_diagnostics(*config, file_id, percent, root_attributes.thumbnail));
                }
            },
            None => {
                proof {
                    assert(diagnostics_view(treehouse.diagnostics@) =~= diagnostics_view(before)
                        + thumbnail_diagnostics(*config, file_id, percent, root_attributes.thumbnail));
                }
            },
        }
        root_attributes
    }

    /// Analyses a tree: its attributes, as parsed from its top-level attribute text into
    /// `parsed_attributes`, and its branches, with their attributes as parsed into
    /// `parsed_branches`, in order; the diagnostics about the attributes come first, then those
    /// of the branches. None only when an id had to be generated and the generator had run out
    /// of ids: where every branch has its id given, the analysis succeeds.
    pub fn from_roots(
        treehouse: &mut Treehouse,
        config: &Config,
        file_id: usize,
        attributes: &Option<crate::pull::Attributes>,
        parsed_attributes: Result<RootAttributes, TomlParseError>,
        roots: &Roots,
        parsed_branches: Vec<ParsedAttributes>,
    ) -> (r: Option<SemaRoots>)
        requires
            old(treehouse).wf(),
            old(treehouse).tree.wf(),
            named_ids_valid(old(treehouse)),
            named_ids_last(old(treehouse)),
            file_id < old(treehouse).files_view().len(),
            old(treehouse).tree_path_spec(file_id as int) is Some,
            attributes matches Some(a) ==> (parsed_attributes matches Err(e) ==> (e.span matches Some(span)
                ==> a.data.start + span.end <= usize::MAX && a.data.start + span.start <= usize::MAX)),
            parsed_forest_fits(views_of(roots.branches@), parsed_branches@),
        ensures
            final(treehouse).wf(),
            final(treehouse).tree.wf(),
            named_ids_valid(final(treehouse)),
            named_ids_last(final(treehouse)),
            context_grew(final(treehouse), old(treehouse)),
            ids_all_given_forest(views_of(roots.branches@), parsed_branches@) ==> r is Some,
            r matches Some(sr) ==> {
                let tree = final(treehouse).tree.branches_spec();
                let tree_path = old(treehouse).tree_path_spec(file_id as int)->Some_0;
                &&& analysed_root_attributes(*attributes, parsed_attributes, tree_path, sr.attributes)
                &&& diagnostics_view(final(treehouse).diagnostics@) == diagnostics_view(old(treehouse).diagnostics@)
                    + root_attribute_diagnostics(*config, file_id, *attributes, parsed_attributes)
                    + forest_diagnostics(
                    tree,
                    sr.branches@,
                    views_of(roots.branches@),
                    parsed_branches@,
                    file_id,
                    old(treehouse).files_view()[file_id as int].0,
                )
                &&& analysed_forest_from(
                    tree,
                    tree.len() as int,
                    sr.branches@,
                    views_of(roots.branches@),
                    parsed_branches@,
                    file_id,
                    tree_path,
                )
            },
    {
        let ghost start = *treehouse;
        let ghost tp = start.tree_path_spec(file_id as int)->Some_0;
        let ghost fname = start.files_view()[file_id as int].0;
        let root_attributes = SemaRoots::parse_attributes(treehouse, config, file_id, attributes, parsed_attributes);
        let ghost after_attributes = diagnostics_view(treehouse.diagnostics@);
        proof {
            assert(forest_diagnostics(
                treehouse.tree.branches_spec(),
                Seq::<SemaBranchId>::empty(),
                views_of(roots.branches@).take(0),
                parsed_branches@.take(0),
                file_id,
                fname,
            ) == Seq::<(Severity, Option<Seq<char>>, Seq<char>, Seq<(LabelStyle, usize, int, int, Seq<char>)>, Seq<Seq<char>>)>::empty());
            assert(diagnostics_view(treehouse.diagnostics@) =~= after_attributes + Seq::<(Severity, Option<Seq<char>>, Seq<char>, Seq<(LabelStyle, usize, int, int, Seq<char>)>, Seq<Seq<char>>)>::empty());
        }
        proof {
            assert(treehouse.tree.branches_spec().subrange(0, start.tree.branches_spec().len() as int)
                =~= start.tree.branches_spec());
            assert(diagnostics_view(treehouse.diagnostics@).len() == treehouse.diagnostics@.len());
            assert(diagnostics_view(start.diagnostics@).len() == start.diagnostics@.len());
            assert(diagnostics_view(treehouse.diagnostics@).subrange(0, start.diagnostics@.len() as int)
                =~= diagnostics_view(start.diagnostics@));
            lemma_views_of(roots.branches@);
        }
        let ghost vs = views_of(roots.branches@);
        let mut branches: Vec<SemaBranchId> = Vec::new();
        let mut remaining = parsed_branches;
        let ghost parsed_in_order = remaining@;
        let mut i: usize = 0;
        while i < roots.branches.len()
            invariant
                i <= roots.branches@.len(),
                vs == views_of(roots.branches@),
                vs.len() == roots.branches@.len(),
                forall|j: int| 0 <= j < vs.len() ==> #[trigger] vs[j] == roots.branches@[j].view_tree(),
                parsed_forest_fits(vs, parsed_in_order),
                parsed_in_order == parsed_branches@,
                remaining@ == parsed_in_order.skip(i as int),
                start == *old(treehouse),
                tp == start.tree_path_spec(file_id as int)->Some_0,
                fname == start.files_view()[file_id as int].0,
                after_attributes == diagnostics_view(start.diagnostics@) + root_attribute_diagnostics(
                    *config,
                    file_id,
                    *attributes,
                    parsed_attributes,
                ),
                diagnostics_view(treehouse.diagnostics@) == after_attributes + forest_diagnostics(
                    treehouse.tree.branches_spec(),
                    branches@,
                    vs.take(i as int),
                    parsed_in_order.take(i as int),
                    file_id,
                    fname,
                ),
                treehouse.wf(),
                treehouse.tree.wf(),
                named_ids_valid(treehouse),
                named_ids_last(treehouse),
                file_id < treehouse.files_view().len(),
                treehouse.tree_path_spec(file_id as int) is Some,
                context_grew(treehouse, &start),
                branches@.len() == i,
                forall|j: int|
                    0 <= j < i ==> (#[trigger] branches@[j]).0 < treehouse.tree.branches_spec().len(),
                analysed_forest_from(
                    treehouse.tree.branches_spec(),
                    treehouse.tree.branches_spec().len() as int,
                    branches@,
                    vs.take(i as int),
                    parsed_in_order.take(i as int),
                    file_id,
                    tp,
                ),
            decreases roots.branches@.len() - i,
        {
            let ghost before = *treehouse;
            let ghost branches_before = branches@;
            proof {
                lemma_forest_fits_index(vs, parsed_in_order, i as int);
            }
            let branch_parsed = remaining.remove(0);
            proof {
                assert(remaining@ =~= parsed_in_order.skip(i + 1));
            }
            match SemaBranch::from_branch(treehouse, file_id, &roots.branches[i], branch_parsed) {
                Some(id) => {
                    branches.push(id);
                },
                None => {
                    proof {
                        lemma_context_grew_trans(treehouse, &before, &start);
                        if ids_all_given_forest(vs, parsed_in_order) {
                            lemma_ids_given_index(vs, parsed_in_order, i as int);
                        }
                    }
                    return None;
                },
            }
            proof {
                lemma_context_grew_trans(treehouse, &before, &start);
                assert forall|j: int| 0 <= j < branches@.len() implies (#[trigger] branches@[j]).0
                    < treehouse.tree.branches_spec().len() by {
                    if j < i {
                        assert(before.tree.branches_spec().len() <= treehouse.tree.branches_spec().len());
                    }
                }
                let t0 = before.tree.branches_spec();
                let t1 = treehouse.tree.branches_spec();
                let id = branches@[i as int];
                assert(branches@.drop_last() =~= branches_before);
                lemma_forest_diagnostics_grow(
                    t0,
                    t1,
                    t0.len() as int,
                    branches_before,
                    vs.take(i as int),
                    parsed_in_order.take(i as int),
                    file_id,
                    fname,
                    tp,
                );
                lemma_forest_diagnostics_push(
                    t1,
                    branches_before,
                    vs.take(i as int),
                    parsed_in_order.take(i as int),
                    id,
                    vs[i as int],
                    parsed_in_order[i as int],
                    file_id,
                    fname,
                );
                lemma_analysed_forest_grow(
                    t0,
                    t1,
                    t0.len() as int,
                    t1.len() as int,
                    branches_before,
                    vs.take(i as int),
                    parsed_in_order.take(i as int),
                    file_id,
                    tp,
                );
                lemma_analysed_forest_push(
                    t1,
                    t1.len() as int,
                    branches_before,
                    vs.take(i as int),
                    parsed_in_order.take(i as int),
                    id,
                    vs[i as int],
                    parsed_in_order[i as int],
                    file_id,
                    tp,
                );
                assert(branches_before.push(id) =~= branches@);
                assert(vs.take(i as int).push(vs[i as int]) =~= vs.take(i + 1));
                assert(parsed_in_order.take(i as int).push(parsed_in_order[i as int]) =~= parsed_in_order.take(
                    i + 1,
                ));
            }
            i = i + 1;
        }
        proof {
            assert(vs.take(i as int) =~= vs);
            assert(parsed_in_order.take(i as int) =~= parsed_in_order);
        }
        Some(SemaRoots { attributes: root_attributes, branches })
    }
}

/// Marks that the errors met were reported as diagnostics.
#[derive(Debug, Clone, Copy, PartialEq, Eq)]
pub struct ErrorsEmitted;

/// Parses file `file_id` as a tree; a parse error is reported as a diagnostic.
pub fn parse_tree_with_diagnostics(treehouse: &mut Treehouse, file_id: usize) -> (r: Result<Roots, ErrorsEmitted>)
    requires
        file_id < old(treehouse).files_view().len(),
        encode_utf8(old(treehouse).files_view()[file_id as int].1).len() < usize::MAX,
    ensures
        same_context(final(treehouse), old(treehouse)),
        match spec_parse_roots(encode_utf8(old(treehouse).files_view()[file_id as int].1), 0) {
            Ok(trees) => r matches Ok(roots) && views_of(roots.branches@) == trees
                && final(treehouse).diagnostics == old(treehouse).diagnostics,
            Err(e) => r is Err && diagnostics_view(final(treehouse).diagnostics@) == diagnostics_view(
                old(treehouse).diagnostics@,
            ).push(
                labelled(
                    Severity::Error,
                    "tree"@,
                    error_message(e.kind),
                    file_id,
                    e.range.start as int,
                    e.range.end as int,
                    Seq::empty(),
                ),
            ),
        },
{
    let result = {
        let input = treehouse.source(file_id);
        let mut parser = Parser { input, position: 0 };
        Roots::parse(&mut parser)
    };
    match result {
        Ok(roots) => Ok(roots),
        Err(error) => {
            let message = error.kind.message();
            let d = labelled_diagnostic(Severity::Error, "tree", message, file_id, error.range, Vec::new());
            let ghost before = treehouse.diagnostics@;
            treehouse.diagnostics.push(d);
            proof {
                assert(Seq::<String>::empty().map_values(|n: String| n@) =~= Seq::<Seq<char>>::empty());
                assert(diagnostics_view(treehouse.diagnostics@) =~= diagnostics_view(before).push(
                    diagnostic_view(d),
                ));
            }
            Err(ErrorsEmitted)
        },
    }
}

} // verus!
