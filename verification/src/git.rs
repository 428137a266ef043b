use vstd::prelude::*;

pub mod github;
pub mod history;
mod hunk_order;
mod idea_patch;

pub use hunk_order::{compare_chars, lemma_compare_chars_antisymmetric, compare_hunks, compare_hunks_exec, hunks_sorted, sort_hunks, stable_arrangement};
pub(crate) use hunk_order::compare_char_vecs;
pub use idea_patch::{idea_patch_hunks, hunks_match, ParsedHunk};
pub use github::GitRepository;

use crate::error::{Error, ErrorKind};
use crate::search::{same_strings, strings_view};
use crate::text::{append_str, join_lines, push_char, string_of};

verus! {

/// Type of line in a diff.
/// ```text
/// ' '  Line context
/// '+'  Line addition
/// '-'  Line deletion
/// '='  Context (End of file)
/// '>'  Add (End of file)
/// '<'  Remove (End of file)
/// 'F'  File header
/// 'H'  Hunk header
/// 'B'  Line binary
/// ```
#[derive(Debug, PartialEq, Eq, Structural, Hash, Copy, Clone)]
pub enum LineType {
    Context,
    Addition,
    Deletion,
    ContextEofnl,
    AddEofnl,
    DelEofnl,
    FileHdr,
    HunkHdr,
    Binary,
}

/// The character by which git marks a line of the given type.
pub open spec fn line_type_char(t: LineType) -> char {
    match t {
        LineType::Context => ' ',
        LineType::Addition => '+',
        LineType::Deletion => '-',
        LineType::ContextEofnl => '=',
        LineType::AddEofnl => '>',
        LineType::DelEofnl => '<',
        LineType::FileHdr => 'F',
        LineType::HunkHdr => 'H',
        LineType::Binary => 'B',
    }
}

/// The line type that git marks with the given character, if any.
pub open spec fn line_type_of_char(c: char) -> Option<LineType> {
    if c == ' ' {
        Some(LineType::Context)
    } else if c == '+' {
        Some(LineType::Addition)
    } else if c == '-' {
        Some(LineType::Deletion)
    } else if c == '=' {
        Some(LineType::ContextEofnl)
    } else if c == '>' {
        Some(LineType::AddEofnl)
    } else if c == '<' {
        Some(LineType::DelEofnl)
    } else if c == 'F' {
        Some(LineType::FileHdr)
    } else if c == 'H' {
        Some(LineType::HunkHdr)
    } else if c == 'B' {
        Some(LineType::Binary)
    } else {
        None
    }
}

impl LineType {
    pub fn char(&self) -> (c: char)
        ensures
            c == line_type_char(*self),
    {
        match self {
            LineType::Context => ' ',
            LineType::Addition => '+',
            LineType::Deletion => '-',
            LineType::ContextEofnl => '=',
            LineType::AddEofnl => '>',
            LineType::DelEofnl => '<',
            LineType::FileHdr => 'F',
            LineType::HunkHdr => 'H',
            LineType::Binary => 'B',
        }
    }

    /// Parses a line-type character; any other character is a `DiffParse` error.
    pub fn try_from(value: char) -> (r: Result<LineType, Error>)
        ensures
            match line_type_of_char(value) {
                Some(t) => r == Ok::<LineType, Error>(t),
                None => r matches Err(e) && e.0 is DiffParse,
            },
    {
        match value {
            ' ' => Ok(LineType::Context),
            '+' => Ok(LineType::Addition),
            '-' => Ok(LineType::Deletion),
            '=' => Ok(LineType::ContextEofnl),
            '>' => Ok(LineType::AddEofnl),
            '<' => Ok(LineType::DelEofnl),
            'F' => Ok(LineType::FileHdr),
            'H' => Ok(LineType::HunkHdr),
            'B' => Ok(LineType::Binary),
            _ => Err(Error::new(ErrorKind::DiffParse(unknown_line_type_message(value)))),
        }
    }
}

/// The message of the error for a character that marks no line type:
/// `unable to parse char '<value>' to LineType`.
fn unknown_line_type_message(value: char) -> (m: String)
    ensures
        m@ == "unable to parse char '"@ + seq![value] + "' to LineType"@,
{
    let mut m = String::new();
    append_str(&mut m, "unable to parse char '");
    push_char(&mut m, value);
    append_str(&mut m, "' to LineType");
    m
}

/// Every line type is read back from its own character.
pub proof fn lemma_line_type_char_roundtrip(t: LineType)
    ensures
        line_type_of_char(line_type_char(t)) == Some(t),
{
}

/// A character that marks a line type is that type's character.
pub proof fn lemma_char_line_type_roundtrip(c: char)
    ensures
        line_type_of_char(c) matches Some(t) ==> line_type_char(t) == c,
{
}


/// The location of a git repository. A repository can either be located locally in the file
/// system or online on a server.
///
/// A repository in the file system is located via the path to its root directory.
///
/// A repository on a server is located via the *https* clone link.
#[derive(Debug, Clone, PartialEq, Eq)]
pub enum RepoLocation {
    Filesystem(String),
    Server(String),
}

/// The path or the url of a repository location.
pub open spec fn location_text(l: RepoLocation) -> Seq<char> {
    match l {
        RepoLocation::Filesystem(p) => p@,
        RepoLocation::Server(u) => u@,
    }
}

impl RepoLocation {
    /// Either the path or the url to the repository, depending on the variant.
    pub fn to_str(&self) -> (s: &str)
        ensures
            s@ == location_text(*self),
    {
        match self {
            RepoLocation::Filesystem(path) => path.as_str(),
            RepoLocation::Server(url) => url.as_str(),
        }
    }

    /// Displays the location: its path or url in double quotes.
    pub fn to_text(&self) -> (t: String)
        ensures
            t@ == seq!['"'] + location_text(*self) + seq!['"'],
    {
        let mut t = String::new();
        push_char(&mut t, '"');
        append_str(&mut t, self.to_str());
        push_char(&mut t, '"');
        t
    }
}

/// Represents a single line in a Diff
#[derive(Debug, Clone)]
pub struct DiffLine {
    pub content: String,
    pub line_type: LineType,
}

/// A diff line as it is displayed: its type's character followed by its content.
pub open spec fn diff_line_text(l: DiffLine) -> Seq<char> {
    seq![line_type_char(l.line_type)] + l.content@
}

impl DiffLine {
    pub fn new(content: String, line_type: LineType) -> (l: Self)
        ensures
            l.content == content,
            l.line_type == line_type,
    {
        DiffLine { content, line_type }
    }

    pub fn content(&self) -> (c: &str)
        ensures
            c@ == self.content@,
    {
        self.content.as_str()
    }

    pub fn line_type(&self) -> (t: LineType)
        ensures
            t == self.line_type,
    {
        self.line_type
    }

    /// The line as it is displayed: the type's character followed by the content.
    pub fn to_text(&self) -> (s: String)
        ensures
            s@ == diff_line_text(*self),
    {
        let mut s = String::new();
        push_char(&mut s, self.line_type.char());
        append_str(&mut s, self.content.as_str());
        s
    }
}

/// A Hunk groups changes to a file that happened in a single commit.
///
/// Changes are grouped by location and a single hunk contains all change and context lines that
/// are directly adjacent to each other in a file.
#[derive(Debug, Clone)]
pub struct Hunk {
    pub body: Vec<DiffLine>,
    pub header: String,
    pub old_file: Option<String>,
    pub new_file: Option<String>,
    pub old_start: u32,
    pub new_start: u32,
}

impl Hunk {
    /// The header line of a hunk. This line contains information about the hunk's location and size
    pub fn header(&self) -> (h: &str)
        ensures
            h@ == self.header@,
    {
        self.header.as_str()
    }

    /// The old file to which diff was applied (i.e., the previous version of the file).
    /// None if the file did not exist yet.
    pub fn old_file(&self) -> (f: &Option<String>)
        ensures
            *f == self.old_file,
    {
        &self.old_file
    }

    /// The new file to which diff was applied. None if the file does not exist anymore.
    pub fn new_file(&self) -> (f: &Option<String>)
        ensures
            *f == self.new_file,
    {
        &self.new_file
    }

    /// The lines belonging to the body of this hunk including context lines and changed lines
    pub fn body(&self) -> (b: &Vec<DiffLine>)
        ensures
            b@ == self.body@,
    {
        &self.body
    }

    /// The start line in the previous version
    pub fn old_start(&self) -> (n: u32)
        ensures
            n == self.old_start,
    {
        self.old_start
    }

    /// The start line in the current version
    pub fn new_start(&self) -> (n: u32)
        ensures
            n == self.new_start,
    {
        self.new_start
    }
}

/// A path as it is displayed in a diff text: the path, or `None` where there is no file.
pub open spec fn file_text(f: Option<String>) -> Seq<char> {
    match f {
        Some(p) => p@,
        None => "None"@,
    }
}

/// The displayed lines of a hunk's body.
pub open spec fn body_texts(body: Seq<DiffLine>) -> Seq<Seq<char>> {
    body.map_values(|l: DiffLine| diff_line_text(l))
}

/// The text of one hunk in a diff text:
/// `--- <old>\n+++ <new>\n<header>\n<body lines joined by \n>\n`.
pub open spec fn hunk_text(h: Hunk) -> Seq<char> {
    "--- "@ + file_text(h.old_file) + "\n+++ "@ + file_text(h.new_file) + "\n"@ + h.header@
        + "\n"@ + join_lines(body_texts(h.body@)) + "\n"@
}

/// The text of a diff: the texts of its hunks, one after the other.
pub open spec fn diff_text_of(hunks: Seq<Hunk>) -> Seq<char>
    decreases hunks.len(),
{
    if hunks.len() == 0 {
        Seq::empty()
    } else {
        diff_text_of(hunks.drop_last()) + hunk_text(hunks.last())
    }
}

/// A CommitDiff holds all hunks with the changes that happened in a commit.
#[derive(Debug, Clone)]
pub struct Diff {
    pub diff_text: String,
    pub hunks: Vec<Hunk>,
}

impl Diff {
    /// The stored text is the text of the hunks.
    pub open spec fn wf(&self) -> bool {
        self.diff_text@ == diff_text_of(self.hunks@)
    }

    pub fn empty() -> (d: Self)
        ensures
            d.hunks@.len() == 0,
            d.wf(),
    {
        Diff { diff_text: String::new(), hunks: Vec::new() }
    }

    /// A diff of the given hunks, with its text.
    pub fn from_hunks(hunks: Vec<Hunk>) -> (d: Self)
        ensures
            d.hunks@ == hunks@,
            d.wf(),
    {
        let diff_text = Self::build_diff_text(&hunks);
        Diff { diff_text, hunks }
    }

    pub fn diff_text(&self) -> (t: &str)
        ensures
            t@ == self.diff_text@,
    {
        self.diff_text.as_str()
    }

    /// Displays the diff: its text.
    pub fn to_text(&self) -> (t: String)
        ensures
            t@ == self.diff_text@,
    {
        self.diff_text.clone()
    }

    fn build_diff_text(hunks: &Vec<Hunk>) -> (text: String)
        ensures
            text@ == diff_text_of(hunks@),
    {
        let mut diff_text = String::new();
        let mut i: usize = 0;
        while i < hunks.len()
            invariant
                i <= hunks.len(),
                diff_text@ == diff_text_of(hunks@.take(i as int)),
            decreases hunks.len() - i,
        {
            let t = hunk_text_exec(&hunks[i]);
            append_str(&mut diff_text, t.as_str());
            proof {
                assert(hunks@.take(i + 1).drop_last() == hunks@.take(i as int));
            }
            i = i + 1;
        }
        assert(hunks@.take(hunks.len() as int) == hunks@);
        diff_text
    }
}

fn file_text_exec(f: &Option<String>) -> (s: &str)
    ensures
        s@ == file_text(*f),
{
    match f {
        Some(p) => p.as_str(),
        None => "None",
    }
}

fn hunk_text_exec(h: &Hunk) -> (s: String)
    ensures
        s@ == hunk_text(*h),
{
    let mut s = String::new();
    append_str(&mut s, "--- ");
    append_str(&mut s, file_text_exec(&h.old_file));
    append_str(&mut s, "\n+++ ");
    append_str(&mut s, file_text_exec(&h.new_file));
    append_str(&mut s, "\n");
    append_str(&mut s, h.header.as_str());
    append_str(&mut s, "\n");
    let mut i: usize = 0;
    let ghost texts = body_texts(h.body@);
    while i < h.body.len()
        invariant
            i <= h.body.len(),
            texts == body_texts(h.body@),
            s@ == "--- "@ + file_text(h.old_file) + "\n+++ "@ + file_text(h.new_file) + "\n"@
                + h.header@ + "\n"@ + join_lines(texts.take(i as int)),
        decreases h.body.len() - i,
    {
        if i > 0 {
            append_str(&mut s, "\n");
        }
        let t = h.body[i].to_text();
        append_str(&mut s, t.as_str());
        proof {
            reveal_strlit("\n");
            assert(texts[i as int] == t@);
            assert(texts.take(i + 1).drop_last() == texts.take(i as int));
            assert(texts.take(i + 1).last() == t@);
            if i == 0 {
                assert(texts.take(0) =~= Seq::<Seq<char>>::empty());
            }
        }
        i = i + 1;
    }
    assert(texts.take(h.body.len() as int) == texts);
    append_str(&mut s, "\n");
    s
}


/// What identifies a diff line: its content and its type.
pub open spec fn line_key(l: DiffLine) -> (Seq<char>, LineType) {
    (l.content@, l.line_type)
}

/// The view of an optional path.
pub open spec fn opt_text(f: Option<String>) -> Option<Seq<char>> {
    match f {
        Some(p) => Some(p@),
        None => None,
    }
}

/// What identifies a hunk: its files and the lines of its body. The header and the start
/// lines do not take part.
pub open spec fn hunk_key(h: Hunk) -> (Option<Seq<char>>, Option<Seq<char>>, Seq<(Seq<char>, LineType)>) {
    (opt_text(h.old_file), opt_text(h.new_file), h.body@.map_values(|l: DiffLine| line_key(l)))
}

/// What identifies a diff: the keys of its hunks, in order. The text does not take part.
pub open spec fn diff_key(d: Diff) -> Seq<(Option<Seq<char>>, Option<Seq<char>>, Seq<(Seq<char>, LineType)>)> {
    d.hunks@.map_values(|h: Hunk| hunk_key(h))
}

impl PartialEq for DiffLine {
    fn eq(&self, other: &Self) -> (r: bool) {
        self.content == other.content && self.line_type == other.line_type
    }
}

impl vstd::std_specs::cmp::PartialEqSpecImpl for DiffLine {
    open spec fn obeys_eq_spec() -> bool {
        true
    }

    open spec fn eq_spec(&self, other: &DiffLine) -> bool {
        line_key(*self) == line_key(*other)
    }
}

impl Eq for DiffLine {}

fn clone_file(f: &Option<String>) -> (c: Option<String>)
    ensures
        c == *f,
{
    match f {
        Some(p) => Some(p.clone()),
        None => None,
    }
}

fn same_text(a: &Option<String>, b: &Option<String>) -> (r: bool)
    ensures
        r == (opt_text(*a) == opt_text(*b)),
{
    match (a, b) {
        (Some(x), Some(y)) => *x == *y,
        (None, None) => true,
        _ => false,
    }
}

fn same_lines(a: &Vec<DiffLine>, b: &Vec<DiffLine>) -> (r: bool)
    ensures
        r == (a@.map_values(|l: DiffLine| line_key(l)) == b@.map_values(|l: DiffLine| line_key(l))),
{
    let ghost ka = a@.map_values(|l: DiffLine| line_key(l));
    let ghost kb = b@.map_values(|l: DiffLine| line_key(l));
    if a.len() != b.len() {
        assert(ka.len() != kb.len());
        return false;
    }
    let mut i: usize = 0;
    while i < a.len()
        invariant
            i <= a.len(),
            a.len() == b.len(),
            ka == a@.map_values(|l: DiffLine| line_key(l)),
            kb == b@.map_values(|l: DiffLine| line_key(l)),
            forall|j: int| 0 <= j < i ==> ka[j] == kb[j],
        decreases a.len() - i,
    {
        if !(a[i] == b[i]) {
            assert(ka[i as int] != kb[i as int]);
            return false;
        }
        i = i + 1;
    }
    assert(ka =~= kb);
    true
}

impl PartialEq for Hunk {
    fn eq(&self, other: &Self) -> (r: bool) {
        same_text(&self.old_file, &other.old_file) && same_text(&self.new_file, &other.new_file)
            && same_lines(&self.body, &other.body)
    }
}

impl vstd::std_specs::cmp::PartialEqSpecImpl for Hunk {
    open spec fn obeys_eq_spec() -> bool {
        true
    }

    open spec fn eq_spec(&self, other: &Hunk) -> bool {
        hunk_key(*self) == hunk_key(*other)
    }
}

impl Eq for Hunk {}

impl PartialEq for Diff {
    fn eq(&self, other: &Self) -> (r: bool) {
        let ghost ka = diff_key(*self);
        let ghost kb = diff_key(*other);
        if self.hunks.len() != other.hunks.len() {
            assert(ka.len() != kb.len());
            return false;
        }
        let mut i: usize = 0;
        while i < self.hunks.len()
            invariant
                i <= self.hunks.len(),
                self.hunks.len() == other.hunks.len(),
                ka == diff_key(*self),
                kb == diff_key(*other),
                forall|j: int| 0 <= j < i ==> ka[j] == kb[j],
            decreases self.hunks.len() - i,
        {
            if !(self.hunks[i] == other.hunks[i]) {
                assert(ka[i as int] != kb[i as int]);
                return false;
            }
            i = i + 1;
        }
        assert(ka =~= kb);
        true
    }
}

impl vstd::std_specs::cmp::PartialEqSpecImpl for Diff {
    open spec fn obeys_eq_spec() -> bool {
        true
    }

    open spec fn eq_spec(&self, other: &Diff) -> bool {
        diff_key(*self) == diff_key(*other)
    }
}

impl Eq for Diff {}

/// The bodies of a diff's hunks, in order: what decides whether two diffs are the same change.
pub open spec fn body_key(d: Diff) -> Seq<Seq<(Seq<char>, LineType)>> {
    d.hunks@.map_values(|h: Hunk| h.body@.map_values(|l: DiffLine| line_key(l)))
}

/// Two diffs have the same bodies exactly when they have as many hunks and, hunk by hunk, as
/// many lines, with the same content and line type at each position: a difference in any
/// hunk, not only the first, tells them apart.
pub proof fn lemma_same_bodies_hunk_by_hunk(a: Diff, b: Diff)
    ensures
        (body_key(a) == body_key(b)) <==> (a.hunks@.len() == b.hunks@.len()
            && (forall|k: int| 0 <= k < a.hunks@.len()
                ==> (#[trigger] a.hunks@[k]).body@.len() == b.hunks@[k].body@.len())
            && (forall|k: int, j: int| 0 <= k < a.hunks@.len() && 0 <= j < a.hunks@[k].body@.len()
                ==> (#[trigger] a.hunks@[k].body@[j]).content@ == b.hunks@[k].body@[j].content@
                    && a.hunks@[k].body@[j].line_type == b.hunks@[k].body@[j].line_type)),
{
    let ka = body_key(a);
    let kb = body_key(b);
    if ka == kb {
        assert(ka.len() == a.hunks@.len() && kb.len() == b.hunks@.len());
        assert forall|k: int| 0 <= k < a.hunks@.len()
            implies (#[trigger] a.hunks@[k]).body@.len() == b.hunks@[k].body@.len() by {
            assert(ka[k] == kb[k]);
            assert(ka[k].len() == a.hunks@[k].body@.len());
            assert(kb[k].len() == b.hunks@[k].body@.len());
        }
        assert forall|k: int, j: int| 0 <= k < a.hunks@.len() && 0 <= j < a.hunks@[k].body@.len()
            implies (#[trigger] a.hunks@[k].body@[j]).content@ == b.hunks@[k].body@[j].content@
                && a.hunks@[k].body@[j].line_type == b.hunks@[k].body@[j].line_type by {
            assert(ka[k] == kb[k]);
            assert(ka[k][j] == line_key(a.hunks@[k].body@[j]));
            assert(kb[k][j] == line_key(b.hunks@[k].body@[j]));
        }
    }
    if a.hunks@.len() == b.hunks@.len()
        && (forall|k: int| 0 <= k < a.hunks@.len()
            ==> (#[trigger] a.hunks@[k]).body@.len() == b.hunks@[k].body@.len())
        && (forall|k: int, j: int| 0 <= k < a.hunks@.len() && 0 <= j < a.hunks@[k].body@.len()
            ==> (#[trigger] a.hunks@[k].body@[j]).content@ == b.hunks@[k].body@[j].content@
                && a.hunks@[k].body@[j].line_type == b.hunks@[k].body@[j].line_type) {
        assert forall|k: int| 0 <= k < ka.len() implies ka[k] == kb[k] by {
            assert(a.hunks@[k].body@.len() == b.hunks@[k].body@.len());
            assert forall|j: int| 0 <= j < ka[k].len() implies ka[k][j] == kb[k][j] by {
                assert(a.hunks@[k].body@[j].content@ == b.hunks@[k].body@[j].content@);
            }
            assert(ka[k] =~= kb[k]);
        }
        assert(ka =~= kb);
    }
}

/// Whether two diffs have the same hunks as their bodies tell: as many hunks, with the same
/// lines in each.
pub fn same_bodies(a: &Diff, b: &Diff) -> (r: bool)
    ensures
        r == (body_key(*a) == body_key(*b)),
        r <==> (a.hunks@.len() == b.hunks@.len()
            && (forall|k: int| 0 <= k < a.hunks@.len()
                ==> (#[trigger] a.hunks@[k]).body@.len() == b.hunks@[k].body@.len())
            && (forall|k: int, j: int| 0 <= k < a.hunks@.len() && 0 <= j < a.hunks@[k].body@.len()
                ==> (#[trigger] a.hunks@[k].body@[j]).content@ == b.hunks@[k].body@[j].content@
                    && a.hunks@[k].body@[j].line_type == b.hunks@[k].body@[j].line_type)),
{
    proof {
        lemma_same_bodies_hunk_by_hunk(*a, *b);
    }
    let ghost ka = body_key(*a);
    let ghost kb = body_key(*b);
    if a.hunks.len() != b.hunks.len() {
        assert(ka.len() != kb.len());
        return false;
    }
    let mut i: usize = 0;
    while i < a.hunks.len()
        invariant
            i <= a.hunks.len(),
            a.hunks.len() == b.hunks.len(),
            ka == body_key(*a),
            kb == body_key(*b),
            forall|j: int| 0 <= j < i ==> ka[j] == kb[j],
        decreases a.hunks.len() - i,
    {
        if !same_lines(&a.hunks[i].body, &b.hunks[i].body) {
            assert(ka[i as int] != kb[i as int]);
            proof {
                lemma_same_bodies_hunk_by_hunk(*a, *b);
            }
            return false;
        }
        i = i + 1;
    }
    assert(ka =~= kb);
    true
}


/// The hunk that a printed diff line belongs to, as git reports it.
#[derive(Debug, Clone)]
pub struct PatchHunk {
    pub header: String,
    pub old_start: u32,
    pub new_start: u32,
}

/// One line that git printed for a diff in patch format: the files of its delta, its hunk
/// (none for the lines of the diff's header), its origin character and its content.
#[derive(Debug, Clone)]
pub struct PatchLine {
    pub old_file: Option<String>,
    pub new_file: Option<String>,
    pub hunk: Option<PatchHunk>,
    pub origin: char,
    pub content: String,
}

/// A hunk as a mathematical value.
pub ghost struct HunkModel {
    pub body: Seq<DiffLine>,
    pub header: Seq<char>,
    pub old_file: Option<Seq<char>>,
    pub new_file: Option<Seq<char>>,
    pub old_start: u32,
    pub new_start: u32,
}

pub open spec fn hunk_model(h: Hunk) -> HunkModel {
    HunkModel {
        body: h.body@,
        header: h.header@,
        old_file: opt_text(h.old_file),
        new_file: opt_text(h.new_file),
        old_start: h.old_start,
        new_start: h.new_start,
    }
}

/// The hunk belongs to the given files and has the given header.
pub open spec fn in_group(h: HunkModel, old_file: Option<Seq<char>>, new_file: Option<Seq<char>>, header: Seq<char>) -> bool {
    h.header == header && h.old_file == old_file && h.new_file == new_file
}

/// The last index in `hs` of a hunk of the given files with the given header, or -1.
pub open spec fn group_index(hs: Seq<HunkModel>, old_file: Option<Seq<char>>, new_file: Option<Seq<char>>, header: Seq<char>) -> int
    decreases hs.len(),
{
    if hs.len() == 0 {
        -1
    } else if in_group(hs.last(), old_file, new_file, header) {
        hs.len() - 1
    } else {
        group_index(hs.drop_last(), old_file, new_file, header)
    }
}

/// The diff line that a printed line contributes to its hunk's body.
pub open spec fn patch_diff_line(l: PatchLine) -> DiffLine {
    DiffLine { content: l.content, line_type: line_type_of_char(l.origin).unwrap() }
}

/// The hunks of printed diff lines, in the order in which they first occur: lines without a
/// hunk are skipped; a hunk is told by the files of its delta and its header; the first line
/// of a hunk opens it with the start lines given there; each line whose origin is not `H` is
/// added to the body of its hunk.
pub open spec fn grouped_hunks(lines: Seq<PatchLine>) -> Seq<HunkModel>
    decreases lines.len(),
{
    if lines.len() == 0 {
        Seq::empty()
    } else {
        let g = grouped_hunks(lines.drop_last());
        let l = lines.last();
        match l.hunk {
            None => g,
            Some(ph) => {
                let k = group_index(g, opt_text(l.old_file), opt_text(l.new_file), ph.header@);
                if k >= 0 {
                    if l.origin == 'H' {
                        g
                    } else {
                        g.update(k, HunkModel { body: g[k].body.push(patch_diff_line(l)), ..g[k] })
                    }
                } else {
                    g.push(
                        HunkModel {
                            body: if l.origin == 'H' { Seq::empty() } else { seq![patch_diff_line(l)] },
                            header: ph.header@,
                            old_file: opt_text(l.old_file),
                            new_file: opt_text(l.new_file),
                            old_start: ph.old_start,
                            new_start: ph.new_start,
                        },
                    )
                }
            },
        }
    }
}

/// Every printed line of a hunk has an origin that marks a line type.
pub open spec fn patch_lines_valid(lines: Seq<PatchLine>) -> bool {
    forall|i: int| 0 <= i < lines.len() && (#[trigger] lines[i]).hunk is Some
        ==> line_type_of_char(lines[i].origin) is Some
}

proof fn lemma_group_index(hs: Seq<HunkModel>, old_file: Option<Seq<char>>, new_file: Option<Seq<char>>, header: Seq<char>)
    ensures
        -1 <= group_index(hs, old_file, new_file, header) < hs.len(),
        group_index(hs, old_file, new_file, header) >= 0
            ==> in_group(hs[group_index(hs, old_file, new_file, header)], old_file, new_file, header),
        forall|k: int| group_index(hs, old_file, new_file, header) < k < hs.len()
            ==> !in_group(#[trigger] hs[k], old_file, new_file, header),
    decreases hs.len(),
{
    if hs.len() > 0 {
        lemma_group_index(hs.drop_last(), old_file, new_file, header);
        assert forall|k: int| 0 <= k < hs.len() - 1 implies hs[k] == hs.drop_last()[k] by {}
    }
}

/// Grouping keeps hunks apart by files and header: every printed line of a hunk finds among
/// the grouped hunks one with its files and its header; no two grouped hunks have the same
/// files and header; and every line of a grouped hunk's body was printed, not as a header
/// line, with that hunk's files and header. So lines of different headers never share a hunk.
pub proof fn lemma_grouped_hunks_by_header(lines: Seq<PatchLine>)
    ensures
        forall|i: int| 0 <= i < lines.len() && (#[trigger] lines[i]).hunk is Some ==> exists|k: int|
            0 <= k < grouped_hunks(lines).len()
                && (#[trigger] grouped_hunks(lines)[k]).header == lines[i].hunk->0.header@
                && grouped_hunks(lines)[k].old_file == opt_text(lines[i].old_file)
                && grouped_hunks(lines)[k].new_file == opt_text(lines[i].new_file),
        forall|k: int, m: int| 0 <= k < m < grouped_hunks(lines).len() ==>
            ((#[trigger] grouped_hunks(lines)[k]).header, grouped_hunks(lines)[k].old_file, grouped_hunks(lines)[k].new_file)
                != ((#[trigger] grouped_hunks(lines)[m]).header, grouped_hunks(lines)[m].old_file, grouped_hunks(lines)[m].new_file),
        forall|k: int, j: int| 0 <= k < grouped_hunks(lines).len() && 0 <= j < grouped_hunks(lines)[k].body.len()
            ==> exists|i: int| 0 <= i < lines.len() && (#[trigger] lines[i]).hunk is Some
                && lines[i].origin != 'H'
                && lines[i].hunk->0.header@ == grouped_hunks(lines)[k].header
                && opt_text(lines[i].old_file) == grouped_hunks(lines)[k].old_file
                && opt_text(lines[i].new_file) == grouped_hunks(lines)[k].new_file
                && patch_diff_line(lines[i]) == #[trigger] grouped_hunks(lines)[k].body[j],
    decreases lines.len(),
{
    if lines.len() > 0 {
        let rest = lines.drop_last();
        lemma_grouped_hunks_by_header(rest);
        let g = grouped_hunks(rest);
        let g2 = grouped_hunks(lines);
        let l = lines.last();
        let last = lines.len() - 1;
        assert(lines[last] == l);
        assert forall|i: int| 0 <= i < rest.len() implies rest[i] == #[trigger] lines[i] by {}
        match l.hunk {
            None => {
                assert(g2 == g);
                assert forall|i: int| 0 <= i < lines.len() && (#[trigger] lines[i]).hunk is Some implies exists|k: int|
                    0 <= k < g2.len() && (#[trigger] g2[k]).header == lines[i].hunk->0.header@
                        && g2[k].old_file == opt_text(lines[i].old_file) && g2[k].new_file == opt_text(lines[i].new_file) by {
                    assert(rest[i] == lines[i]);
                }
                assert forall|k: int, j: int| 0 <= k < g2.len() && 0 <= j < g2[k].body.len() implies exists|i: int|
                    0 <= i < lines.len() && (#[trigger] lines[i]).hunk is Some && lines[i].origin != 'H'
                        && lines[i].hunk->0.header@ == g2[k].header
                        && opt_text(lines[i].old_file) == g2[k].old_file
                        && opt_text(lines[i].new_file) == g2[k].new_file
                        && patch_diff_line(lines[i]) == #[trigger] g2[k].body[j] by {
                    let i = choose|i: int| 0 <= i < rest.len() && (#[trigger] rest[i]).hunk is Some && rest[i].origin != 'H'
                        && rest[i].hunk->0.header@ == g[k].header
                        && opt_text(rest[i].old_file) == g[k].old_file
                        && opt_text(rest[i].new_file) == g[k].new_file
                        && patch_diff_line(rest[i]) == g[k].body[j];
                    assert(lines[i] == rest[i]);
                }
            },
            Some(ph) => {
                let o = opt_text(l.old_file);
                let n = opt_text(l.new_file);
                let hd = ph.header@;
                let gi = group_index(g, o, n, hd);
                lemma_group_index(g, o, n, hd);
                // the group of the last line, in the new grouping
                let kl: int = if gi >= 0 { gi } else { g.len() as int };
                assert(0 <= kl < g2.len());
                assert(g2[kl].header == hd && g2[kl].old_file == o && g2[kl].new_file == n);
                assert(g2.len() == g.len() || g2.len() == g.len() + 1);
                assert forall|k: int| 0 <= k < g2.len() && k != kl implies #[trigger] g2[k] == g[k] by {}
                assert forall|k: int| 0 <= k < g.len() implies (#[trigger] g2[k]).header == g[k].header
                    && g2[k].old_file == g[k].old_file && g2[k].new_file == g[k].new_file by {
                    if k != kl {
                        assert(g2[k] == g[k]);
                    }
                }
                assert forall|i: int| 0 <= i < lines.len() && (#[trigger] lines[i]).hunk is Some implies exists|k: int|
                    0 <= k < g2.len() && (#[trigger] g2[k]).header == lines[i].hunk->0.header@
                        && g2[k].old_file == opt_text(lines[i].old_file) && g2[k].new_file == opt_text(lines[i].new_file) by {
                    if i < rest.len() {
                        assert(rest[i] == lines[i]);
                        let k = choose|k: int| 0 <= k < g.len() && (#[trigger] g[k]).header == rest[i].hunk->0.header@
                            && g[k].old_file == opt_text(rest[i].old_file) && g[k].new_file == opt_text(rest[i].new_file);
                        assert(g2[k].header == g[k].header);
                    } else {
                        assert(g2[kl].header == hd);
                    }
                }
                assert forall|k: int, m: int| 0 <= k < m < g2.len() implies
                    ((#[trigger] g2[k]).header, g2[k].old_file, g2[k].new_file)
                        != ((#[trigger] g2[m]).header, g2[m].old_file, g2[m].new_file) by {
                    if m < g.len() {
                        assert(g2[k].header == g[k].header && g2[m].header == g[m].header);
                        assert((g[k].header, g[k].old_file, g[k].new_file) != (g[m].header, g[m].old_file, g[m].new_file));
                    } else {
                        assert(gi < 0);
                        assert(m == kl);
                        assert(!in_group(g[k], o, n, hd));
                        assert(g2[k].header == g[k].header);
                    }
                }
                assert forall|k: int, j: int| 0 <= k < g2.len() && 0 <= j < g2[k].body.len() implies exists|i: int|
                    0 <= i < lines.len() && (#[trigger] lines[i]).hunk is Some && lines[i].origin != 'H'
                        && lines[i].hunk->0.header@ == g2[k].header
                        && opt_text(lines[i].old_file) == g2[k].old_file
                        && opt_text(lines[i].new_file) == g2[k].new_file
                        && patch_diff_line(lines[i]) == #[trigger] g2[k].body[j] by {
                    if k < g.len() && j < g[k].body.len() {
                        assert(g2[k].body[j] == g[k].body[j]);
                        let i = choose|i: int| 0 <= i < rest.len() && (#[trigger] rest[i]).hunk is Some && rest[i].origin != 'H'
                            && rest[i].hunk->0.header@ == g[k].header
                            && opt_text(rest[i].old_file) == g[k].old_file
                            && opt_text(rest[i].new_file) == g[k].new_file
                            && patch_diff_line(rest[i]) == g[k].body[j];
                        assert(lines[i] == rest[i]);
                    } else {
                        assert(k == kl);
                        assert(l.origin != 'H');
                        assert(g2[k].body[j] == patch_diff_line(l));
                        assert(lines[last] == l);
                    }
                }
            },
        }
    }
}

/// The last hunk of the given files with the given header.
fn find_group(hunks: &Vec<Hunk>, old_file: &Option<String>, new_file: &Option<String>, header: &String) -> (r: Option<usize>)
    ensures
        match r {
            Some(k) => k as int == group_index(hunks@.map_values(|h: Hunk| hunk_model(h)), opt_text(*old_file), opt_text(*new_file), header@),
            None => group_index(hunks@.map_values(|h: Hunk| hunk_model(h)), opt_text(*old_file), opt_text(*new_file), header@) < 0,
        },
{
    let ghost hs = hunks@.map_values(|h: Hunk| hunk_model(h));
    let ghost (o, n, hd) = (opt_text(*old_file), opt_text(*new_file), header@);
    proof {
        lemma_group_index(hs, o, n, hd);
    }
    let mut k: usize = hunks.len();
    while k > 0
        invariant
            k <= hunks.len(),
            hs == hunks@.map_values(|h: Hunk| hunk_model(h)),
            o == opt_text(*old_file),
            n == opt_text(*new_file),
            hd == header@,
            forall|j: int| k <= j < hunks.len() ==> !in_group(#[trigger] hs[j], o, n, hd),
        decreases k,
    {
        let h = &hunks[k - 1];
        assert(hs[k - 1] == hunk_model(*h));
        let same_header = crate::text::same_str(h.header.as_str(), header.as_str());
        let same_old = same_text(&h.old_file, old_file);
        let same_new = same_text(&h.new_file, new_file);
        assert(hs[k - 1].header == h.header@ && hs[k - 1].old_file == opt_text(h.old_file)
            && hs[k - 1].new_file == opt_text(h.new_file));
        assert((same_header && same_old && same_new) == in_group(hs[k - 1], o, n, hd));
        if same_header && same_old && same_new {
            proof {
                lemma_group_index(hs, o, n, hd);
            }
            let ghost gi = group_index(hs, o, n, hd);
            assert(gi == k - 1);
            return Some(k - 1);
        }
        k = k - 1;
    }
    let ghost gi = group_index(hs, o, n, hd);
    assert(gi < 0);
    None
}

proof fn lemma_map_multiset<A, B>(a: Seq<A>, b: Seq<A>, f: spec_fn(A) -> B)
    requires
        a.to_multiset() == b.to_multiset(),
    ensures
        a.map_values(f).to_multiset() == b.map_values(f).to_multiset(),
    decreases a.len(),
{
    broadcast use vstd::seq_lib::group_to_multiset_ensures;
    if a.len() == 0 {
        assert(a.to_multiset().len() == 0);
        assert(b.to_multiset().len() == b.len());
        assert(b.len() == 0);
        assert(a.map_values(f) =~= b.map_values(f));
    } else {
        let x = a.last();
        assert(a[a.len() - 1] == x);
        assert(a.contains(x));
        assert(a.to_multiset().count(x) > 0);
        assert(b.contains(x));
        let j = choose|j: int| 0 <= j < b.len() && b[j] == x;
        assert(a.drop_last().push(x) == a);
        assert(a.to_multiset() == a.drop_last().to_multiset().insert(x));
        assert(b.remove(j).to_multiset() == b.to_multiset().remove(x));
        assert(a.drop_last().to_multiset() =~= b.remove(j).to_multiset());
        lemma_map_multiset(a.drop_last(), b.remove(j), f);
        assert(a.map_values(f) == a.drop_last().map_values(f).push(f(x)));
        assert(b.map_values(f).remove(j) == b.remove(j).map_values(f));
        assert(b.map_values(f)[j] == f(x));
        assert(b.map_values(f).remove(j).to_multiset() == b.map_values(f).to_multiset().remove(f(x)));
        assert(b.map_values(f).contains(f(x)));
        assert(b.map_values(f).to_multiset().count(f(x)) > 0);
        assert(a.map_values(f).to_multiset() =~= b.map_values(f).to_multiset());
    }
}

impl Diff {
    /// Builds a diff from the lines that git printed for it in patch format. The lines are
    /// grouped into hunks by the files of their delta and their hunk header; lines outside of
    /// hunks and hunk header lines are not part of any body. The hunks are then sorted in the
    /// order of `compare_hunks`, hunks that compare equal staying in the order of their first
    /// lines.
    pub fn from_patch_lines(lines: &Vec<PatchLine>) -> (d: Diff)
        requires
            patch_lines_valid(lines@),
        ensures
            d.wf(),
            hunks_sorted(d.hunks@),
            d.hunks@.map_values(|h: Hunk| hunk_model(h)).to_multiset()
                == grouped_hunks(lines@).to_multiset(),
            exists|hs: Seq<Hunk>, perm: Seq<int>| hs.map_values(|h: Hunk| hunk_model(h)) == grouped_hunks(lines@)
                && #[trigger] stable_arrangement(hs, d.hunks@, perm),
            forall|i: int| 0 <= i < lines.len() && (#[trigger] lines@[i]).hunk is Some ==> exists|k: int|
                0 <= k < d.hunks@.len() && (#[trigger] d.hunks@[k]).header@ == lines@[i].hunk->0.header@
                    && opt_text(d.hunks@[k].old_file) == opt_text(lines@[i].old_file)
                    && opt_text(d.hunks@[k].new_file) == opt_text(lines@[i].new_file),
            forall|k: int, j: int| 0 <= k < d.hunks@.len() && 0 <= j < d.hunks@[k].body@.len() ==> exists|i: int|
                0 <= i < lines.len() && (#[trigger] lines@[i]).hunk is Some && lines@[i].origin != 'H'
                    && lines@[i].hunk->0.header@ == d.hunks@[k].header@
                    && opt_text(lines@[i].old_file) == opt_text(d.hunks@[k].old_file)
                    && opt_text(lines@[i].new_file) == opt_text(d.hunks@[k].new_file)
                    && patch_diff_line(lines@[i]) == #[trigger] d.hunks@[k].body@[j],
    {
        let mut hunks: Vec<Hunk> = Vec::new();
        let mut i: usize = 0;
        while i < lines.len()
            invariant
                i <= lines.len(),
                patch_lines_valid(lines@),
                hunks@.map_values(|h: Hunk| hunk_model(h)) == grouped_hunks(lines@.take(i as int)),
            decreases lines.len() - i,
        {
            let ghost before = hunks@.map_values(|h: Hunk| hunk_model(h));
            let l = &lines[i];
            proof {
                assert(lines@.take(i + 1).drop_last() == lines@.take(i as int));
                assert(lines@.take(i + 1).last() == *l);
            }
            let ghost next = grouped_hunks(lines@.take(i + 1));
            match &l.hunk {
                None => {
                    assert(next == before);
                },
                Some(ph) => {
                    proof {
                        lemma_group_index(before, opt_text(l.old_file), opt_text(l.new_file), ph.header@);
                    }
                    match find_group(&hunks, &l.old_file, &l.new_file, &ph.header) {
                        Some(k) => {
                            if l.origin != 'H' {
                                let line_type = match LineType::try_from(l.origin) {
                                    Ok(t) => t,
                                    Err(_) => { proof { assert(false); } LineType::Context },
                                };
                                let line = DiffLine::new(l.content.clone(), line_type);
                                let ghost hs0 = hunks@;
                                let mut h = hunks.remove(k);
                                h.body.push(line);
                                hunks.insert(k, h);
                                proof {
                                    assert(hunks@ == hs0.update(k as int, h));
                                    assert(hunk_model(h) == HunkModel { body: before[k as int].body.push(patch_diff_line(*l)), ..before[k as int] });
                                    assert(hunks@.map_values(|h: Hunk| hunk_model(h)) =~= before.update(k as int, hunk_model(h)));
                                    assert(next == before.update(k as int, hunk_model(h)));
                                }
                            }
                        },
                        None => {
                            let body: Vec<DiffLine> = if l.origin == 'H' {
                                Vec::new()
                            } else {
                                let line_type = match LineType::try_from(l.origin) {
                                    Ok(t) => t,
                                    Err(_) => { proof { assert(false); } LineType::Context },
                                };
                                let mut b: Vec<DiffLine> = Vec::new();
                                b.push(DiffLine::new(l.content.clone(), line_type));
                                b
                            };
                            let h = Hunk {
                                body,
                                header: ph.header.clone(),
                                old_file: clone_file(&l.old_file),
                                new_file: clone_file(&l.new_file),
                                old_start: ph.old_start,
                                new_start: ph.new_start,
                            };
                            hunks.push(h);
                            proof {
                                assert(hunks@.map_values(|h: Hunk| hunk_model(h)) =~= before.push(hunk_model(h)));
                                assert(next == before.push(hunk_model(h)));
                            }
                        },
                    }
                },
            }
            proof {
                assert(hunks@.map_values(|h: Hunk| hunk_model(h)) =~= grouped_hunks(lines@.take(i + 1)));
            }
            i = i + 1;
        }
        assert(lines@.take(lines.len() as int) == lines@);
        let ghost grouped = hunks@;
        let sorted = sort_hunks(hunks);
        proof {
            lemma_map_multiset(sorted@, grouped, |h: Hunk| hunk_model(h));
            let perm = choose|perm: Seq<int>| stable_arrangement(grouped, sorted@, perm);
            assert(stable_arrangement(grouped, sorted@, perm));
            broadcast use vstd::seq_lib::group_to_multiset_ensures;
            lemma_grouped_hunks_by_header(lines@);
            let g = grouped_hunks(lines@);
            let m = sorted@.map_values(|h: Hunk| hunk_model(h));
            assert(m.to_multiset() == g.to_multiset());
            assert forall|i: int| 0 <= i < lines.len() && (#[trigger] lines@[i]).hunk is Some implies exists|k: int|
                0 <= k < sorted@.len() && (#[trigger] sorted@[k]).header@ == lines@[i].hunk->0.header@
                    && opt_text(sorted@[k].old_file) == opt_text(lines@[i].old_file)
                    && opt_text(sorted@[k].new_file) == opt_text(lines@[i].new_file) by {
                let q = choose|q: int| 0 <= q < g.len() && (#[trigger] g[q]).header == lines@[i].hunk->0.header@
                    && g[q].old_file == opt_text(lines@[i].old_file) && g[q].new_file == opt_text(lines@[i].new_file);
                assert(g.contains(g[q]));
                assert(m.to_multiset().count(g[q]) > 0);
                assert(m.contains(g[q]));
                let k = choose|k: int| 0 <= k < m.len() && m[k] == g[q];
                assert(m[k] == hunk_model(sorted@[k]));
            }
            assert forall|k: int, j: int| 0 <= k < sorted@.len() && 0 <= j < sorted@[k].body@.len() implies exists|i: int|
                0 <= i < lines.len() && (#[trigger] lines@[i]).hunk is Some && lines@[i].origin != 'H'
                    && lines@[i].hunk->0.header@ == sorted@[k].header@
                    && opt_text(lines@[i].old_file) == opt_text(sorted@[k].old_file)
                    && opt_text(lines@[i].new_file) == opt_text(sorted@[k].new_file)
                    && patch_diff_line(lines@[i]) == #[trigger] sorted@[k].body@[j] by {
                assert(m[k] == hunk_model(sorted@[k]));
                assert(m.contains(m[k]));
                assert(g.to_multiset().count(m[k]) > 0);
                assert(g.contains(m[k]));
                let q = choose|q: int| 0 <= q < g.len() && g[q] == m[k];
                assert(g[q].body[j] == sorted@[k].body@[j]);
            }
        }
        Diff::from_hunks(sorted)
    }
}


/// The time of a commit: seconds since the epoch, the time zone offset in minutes, and the
/// text by which git displays the time in debug output.
#[derive(Debug, Clone)]
pub struct CommitTime {
    pub seconds: i64,
    pub offset_minutes: i32,
    pub debug_text: String,
}

/// Commit times are ordered by their seconds, then by their offsets.
pub open spec fn time_before(a: CommitTime, b: CommitTime) -> bool {
    a.seconds < b.seconds || (a.seconds == b.seconds && a.offset_minutes < b.offset_minutes)
}

/// The seconds since the epoch decide which of two times comes first, whatever the time zone
/// offsets; the offsets only break a tie.
pub proof fn lemma_time_before_by_seconds(a: CommitTime, b: CommitTime)
    ensures
        a.seconds < b.seconds ==> time_before(a, b),
        a.seconds > b.seconds ==> !time_before(a, b),
        a.seconds == b.seconds ==> (time_before(a, b) <==> a.offset_minutes < b.offset_minutes),
        !(time_before(a, b) && time_before(b, a)),
{
}

impl CommitTime {
    pub fn new(seconds: i64, offset_minutes: i32, debug_text: String) -> (t: Self)
        ensures
            t.seconds == seconds,
            t.offset_minutes == offset_minutes,
            t.debug_text == debug_text,
    {
        CommitTime { seconds, offset_minutes, debug_text }
    }

    /// Whether this time comes strictly before the other one.
    pub fn is_before(&self, other: &CommitTime) -> (r: bool)
        ensures
            r == time_before(*self, *other),
            self.seconds < other.seconds ==> r,
            self.seconds > other.seconds ==> !r,
            self.seconds == other.seconds ==> (r <==> self.offset_minutes < other.offset_minutes),
    {
        proof {
            lemma_time_before_by_seconds(*self, *other);
        }
        self.seconds < other.seconds || (self.seconds == other.seconds
            && self.offset_minutes < other.offset_minutes)
    }
}

/// All relevant data for a commit.
#[derive(Debug, Clone)]
pub struct Commit {
    pub id: String,
    pub message: String,
    pub diff: Diff,
    pub author: String,
    pub committer: String,
    pub time: CommitTime,
    pub parent_ids: Vec<String>,
}

impl Commit {
    /// Initializes a Commit with the given values
    pub fn new(
        id: String,
        message: String,
        diff: Diff,
        author: String,
        committer: String,
        time: CommitTime,
        parent_ids: Vec<String>,
    ) -> (c: Self)
        ensures
            c.id == id,
            c.message == message,
            c.diff == diff,
            c.author == author,
            c.committer == committer,
            c.time == time,
            c.parent_ids == parent_ids,
    {
        Commit { id, message, diff, author, committer, time, parent_ids }
    }

    /// The commit hash, aka. revision number
    pub fn id(&self) -> (s: &str)
        ensures
            s@ == self.id@,
    {
        self.id.as_str()
    }

    /// The commit message
    pub fn message(&self) -> (s: &str)
        ensures
            s@ == self.message@,
    {
        self.message.as_str()
    }

    /// The diff of the commit to its first parent
    pub fn diff(&self) -> (d: &Diff)
        ensures
            *d == self.diff,
    {
        &self.diff
    }

    /// The author of the commit
    pub fn author(&self) -> (s: &str)
        ensures
            s@ == self.author@,
    {
        self.author.as_str()
    }

    /// The committer of the commit
    pub fn committer(&self) -> (s: &str)
        ensures
            s@ == self.committer@,
    {
        self.committer.as_str()
    }

    /// The timestamp of the commit
    pub fn time(&self) -> (t: &CommitTime)
        ensures
            *t == self.time,
    {
        &self.time
    }

    /// The ids of the commit's parents
    pub fn parent_ids(&self) -> (p: &Vec<String>)
        ensures
            p@ == self.parent_ids@,
    {
        &self.parent_ids
    }
}

/// What tells commits apart: everything but the time.
pub open spec fn commit_key(c: Commit) -> (Seq<char>, Seq<char>, Seq<(Option<Seq<char>>, Option<Seq<char>>, Seq<(Seq<char>, LineType)>)>, Seq<char>, Seq<char>, Seq<Seq<char>>) {
    (c.id@, c.message@, diff_key(c.diff), c.author@, c.committer@, strings_view(c.parent_ids@))
}

impl PartialEq for Commit {
    fn eq(&self, other: &Self) -> (r: bool) {
        self.id == other.id && self.message == other.message && self.diff == other.diff
            && self.author == other.author && self.committer == other.committer
            && same_strings(&self.parent_ids, &other.parent_ids)
    }
}

impl vstd::std_specs::cmp::PartialEqSpecImpl for Commit {
    open spec fn obeys_eq_spec() -> bool {
        true
    }

    open spec fn eq_spec(&self, other: &Commit) -> bool {
        commit_key(*self) == commit_key(*other)
    }
}

impl Eq for Commit {}

/// String wrapper for representing patches extracted with IDEA IDEs
pub struct IdeaPatch(pub String);

pub open spec fn commit_ids(cs: Seq<Commit>) -> Seq<Seq<char>> {
    cs.map_values(|c: Commit| c.id@)
}

/// The commits in order, each id once: the first commit with each id.
pub open spec fn first_of_each_id(cs: Seq<Commit>) -> Seq<Commit>
    decreases cs.len(),
{
    if cs.len() == 0 {
        Seq::empty()
    } else {
        let rest = first_of_each_id(cs.drop_last());
        if commit_ids(cs.drop_last()).contains(cs.last().id@) { rest } else { rest.push(cs.last()) }
    }
}

/// Of the commits kept, no two have the same id, and every id of the given commits is kept.
pub proof fn lemma_first_of_each_id_unique(cs: Seq<Commit>)
    ensures
        commit_ids(first_of_each_id(cs)).no_duplicates(),
        forall|id: Seq<char>| #[trigger] commit_ids(first_of_each_id(cs)).contains(id) <==> commit_ids(cs).contains(id),
    decreases cs.len(),
{
    if cs.len() > 0 {
        let rest = cs.drop_last();
        lemma_first_of_each_id_unique(rest);
        let r = first_of_each_id(rest);
        let x = cs.last().id@;
        assert(commit_ids(cs) =~= commit_ids(rest).push(x));
        assert forall|id: Seq<char>| #[trigger] commit_ids(cs).contains(id) <==> commit_ids(rest).contains(id) || id == x by {
            if commit_ids(cs).contains(id) && id != x {
                let k = choose|k: int| 0 <= k < cs.len() && commit_ids(cs)[k] == id;
                assert(commit_ids(rest)[k] == id);
            }
            if commit_ids(rest).contains(id) {
                let k = choose|k: int| 0 <= k < rest.len() && commit_ids(rest)[k] == id;
                assert(commit_ids(cs)[k] == id);
            }
            assert(commit_ids(cs)[cs.len() - 1] == x);
        }
        if !commit_ids(rest).contains(x) {
            let r2 = r.push(cs.last());
            assert(commit_ids(r2) =~= commit_ids(r).push(x));
            assert forall|id: Seq<char>| #[trigger] commit_ids(r2).contains(id) <==> commit_ids(r).contains(id) || id == x by {
                if commit_ids(r2).contains(id) && id != x {
                    let k = choose|k: int| 0 <= k < r2.len() && commit_ids(r2)[k] == id;
                    assert(commit_ids(r)[k] == id);
                }
                if commit_ids(r).contains(id) {
                    let k = choose|k: int| 0 <= k < r.len() && commit_ids(r)[k] == id;
                    assert(commit_ids(r2)[k] == id);
                }
                assert(commit_ids(r2)[r.len() as int] == x);
            }
            let v = commit_ids(r);
            let v2 = commit_ids(r2);
            assert forall|a: int, b: int| 0 <= a < b < v2.len() implies v2[a] != v2[b] by {
                if b == v.len() {
                    assert(v2[a] == v[a]);
                    assert(v.contains(v2[a]));
                } else {
                    assert(v2[a] == v[a] && v2[b] == v[b]);
                }
            }
        }
    }
}

/// Drops the commits whose id came before: the same commit found in several branches or
/// repositories is kept once, where it was first found.
pub fn unique_commits(commits: Vec<Commit>) -> (unique: Vec<Commit>)
    ensures
        unique@ == first_of_each_id(commits@),
{
    let ghost all = commits@;
    let n = commits.len();
    // the commits in reverse, so that popping them hands them out in order
    let mut rest = commits;
    let mut reversed: Vec<Commit> = Vec::new();
    while rest.len() > 0
        invariant
            rest@ == all.take(rest.len() as int),
            reversed.len() + rest.len() == n,
            n == all.len(),
            forall|k: int| 0 <= k < reversed.len() ==> #[trigger] reversed@[k] == all[n - 1 - k],
        decreases rest.len(),
    {
        let ghost r0 = reversed@;
        match rest.pop() {
            Some(c) => {
                reversed.push(c);
                assert forall|k: int| 0 <= k < reversed.len() implies #[trigger] reversed@[k] == all[n - 1 - k] by {
                    if k < r0.len() {
                        assert(reversed@[k] == r0[k]);
                    }
                }
            },
            None => {},
        }
    }
    let mut seen: vstd::hash_map::StringHashMap<()> = vstd::hash_map::StringHashMap::new();
    let mut unique: Vec<Commit> = Vec::new();
    let ghost mut i: int = 0;
    while reversed.len() > 0
        invariant
            0 <= i <= n,
            n == all.len(),
            reversed.len() == n - i,
            forall|k: int| 0 <= k < reversed.len() ==> #[trigger] reversed@[k] == all[n - 1 - k],
            unique@ == first_of_each_id(all.take(i)),
            forall|id: Seq<char>| #[trigger] seen@.contains_key(id) <==> commit_ids(all.take(i)).contains(id),
        decreases reversed.len(),
    {
        let ghost prefix = all.take(i);
        assert(reversed@[reversed.len() - 1] == all[i]);
        match reversed.pop() {
            Some(c) => {
                assert(c == all[i]);
                assert(all.take(i + 1).drop_last() =~= prefix);
                assert(commit_ids(all.take(i + 1)) =~= commit_ids(prefix).push(c.id@));
                let ghost seen0 = seen@;
                let fresh = !seen.contains_key(c.id.as_str());
                assert(fresh == !seen0.contains_key(c.id@));
                if fresh {
                    seen.insert(c.id.clone(), ());
                    unique.push(c);
                }
                proof {
                    assert forall|id: Seq<char>| #[trigger] seen@.contains_key(id)
                        <==> commit_ids(all.take(i + 1)).contains(id) by {
                        if commit_ids(all.take(i + 1)).contains(id) && id != c.id@ {
                            let k = choose|k: int| 0 <= k < i + 1 && #[trigger] commit_ids(all.take(i + 1))[k] == id;
                            assert(commit_ids(prefix)[k] == id);
                        }
                        if commit_ids(prefix).contains(id) {
                            let k = choose|k: int| 0 <= k < i && #[trigger] commit_ids(prefix)[k] == id;
                            assert(commit_ids(all.take(i + 1))[k] == id);
                        }
                        assert(commit_ids(all.take(i + 1))[i] == c.id@);
                    }
                    i = i + 1;
                }
            },
            None => {},
        }
    }
    assert(all.take(n as int) =~= all);
    unique
}

} // verus!
