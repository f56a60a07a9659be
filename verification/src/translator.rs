//! Decisions of the line-by-line translation: how the output file is
//! opened, how many input lines are passed over, and what each line
//! becomes.

use vstd::prelude::*;
use vstd::string::StringExecFns;
use crate::text::{is_blank, is_blank_text, join, joined, views};

verus! {

broadcast use vstd::string::group_string_axioms;

#[verifier::external_type_specification]
#[verifier::external_body]
pub struct ExRegex(regex::Regex);

/// Whether `pattern` is a regular expression that the `regex` crate
/// accepts.
pub uninterp spec fn regex_compiles(pattern: Seq<char>) -> bool;

/// Whether the regular expression `pattern` matches somewhere in `text`,
/// as the `regex` crate decides.
pub uninterp spec fn regex_finds(pattern: Seq<char>, text: Seq<char>) -> bool;

/// A compiled pattern for lines that are copied rather than translated.
pub struct SkipPattern {
    source: String,
    compiled: regex::Regex,
}

impl View for SkipPattern {
    type V = Seq<char>;

    /// The pattern's text.
    closed spec fn view(&self) -> Seq<char> {
        self.source@
    }
}

/// Trusted: `regex::Regex::new` compiles `pattern`, or fails with an
/// error whose debug form is returned. The contract claims only that it
/// succeeds exactly for the patterns named by `regex_compiles`, and that
/// the compiled pattern keeps the pattern's text; what the compiled
/// pattern matches is left to [`pattern_finds`].
#[verifier::external_body]
fn compile_pattern(pattern: &str) -> (r: Result<SkipPattern, String>)
    ensures
        r is Ok <==> regex_compiles(pattern@),
        r matches Ok(p) ==> p@ == pattern@,
{
    match regex::Regex::new(pattern) {
        Ok(compiled) => Ok(SkipPattern { source: pattern.to_string(), compiled }),
        Err(e) => Err(format!("{:?}", e)),
    }
}

/// Trusted: `regex::Regex::is_match` tells whether the pattern, compiled
/// from the text that `p` views, matches somewhere in `text`.
#[verifier::external_body]
fn pattern_finds(p: &SkipPattern, text: &str) -> (b: bool)
    ensures
        b == regex_finds(p@, text@),
{
    p.compiled.is_match(text)
}

/// Why a translation cannot start.
#[derive(Debug)]
pub enum TranslateError {
    /// The skip pattern is not a regular expression; the text describes why.
    InvalidRegex(String),
}

impl SkipPattern {
    /// Compiles the pattern of lines to keep as they are.
    pub fn new(pattern: &str) -> (r: Result<SkipPattern, TranslateError>)
        ensures
            r is Ok <==> regex_compiles(pattern@),
            r matches Ok(p) ==> p@ == pattern@,
    {
        match compile_pattern(pattern) {
            Ok(p) => Ok(p),
            Err(why) => Err(TranslateError::InvalidRegex(why)),
        }
    }

    /// Whether the pattern matches somewhere in `line`.
    pub fn is_match(&self, line: &str) -> (b: bool)
        ensures
            b == regex_finds(self@, line@),
    {
        pattern_finds(self, line)
    }
}

/// What becomes of an input line; a line feed follows in every case.
#[derive(Clone, Copy, Debug, PartialEq, Eq, Structural)]
pub enum LineAction {
    /// A blank line: nothing is written before the line feed.
    Blank,
    /// A line that the skip pattern matches: it is written as it is.
    Copy,
    /// Any other line: its translation is written.
    Translate,
}

/// Decides what becomes of `line`.
pub fn line_action(line: &str, skip: &SkipPattern) -> (a: LineAction)
    ensures
        a == if is_blank_text(line@) {
            LineAction::Blank
        } else if regex_finds(skip@, line@) {
            LineAction::Copy
        } else {
            LineAction::Translate
        },
{
    if is_blank(line) {
        LineAction::Blank
    } else if skip.is_match(line) {
        LineAction::Copy
    } else {
        LineAction::Translate
    }
}

/// The translations, each with its sentences joined by spaces, one after
/// the other.
pub open spec fn translations_text(outputs: Seq<Vec<String>>) -> Seq<char>
    decreases outputs.len(),
{
    if outputs.len() == 0 {
        Seq::empty()
    } else {
        translations_text(outputs.drop_last()) + joined(views(outputs.last()@), " "@)
    }
}

/// What is written for a translated line: each translation that the model
/// gave, its sentences joined by spaces.
pub fn translated_text(outputs: &Vec<Vec<String>>) -> (r: String)
    ensures
        r@ == translations_text(outputs@),
{
    let mut r = String::new();
    let mut i: usize = 0;
    assert(outputs@.take(0) =~= Seq::<Vec<String>>::empty());
    while i < outputs.len()
        invariant
            i <= outputs.len(),
            r@ == translations_text(outputs@.take(i as int)),
        decreases outputs.len() - i,
    {
        assert(outputs@.take(i + 1).drop_last() =~= outputs@.take(i as int));
        let s = join(&outputs[i], " ");
        r.append(s.as_str());
        i = i + 1;
    }
    assert(outputs@.take(outputs.len() as int) =~= outputs@);
    r
}

/// What is written for a line before its line feed: nothing for a blank
/// line, the line itself where the skip pattern matches it, its
/// translations otherwise.
pub fn line_text(line: &str, action: LineAction, translations: &Vec<Vec<String>>) -> (r: String)
    ensures
        r@ == match action {
            LineAction::Blank => Seq::<char>::empty(),
            LineAction::Copy => line@,
            LineAction::Translate => translations_text(translations@),
        },
{
    match action {
        LineAction::Blank => String::new(),
        LineAction::Copy => String::from_str(line),
        LineAction::Translate => translated_text(translations),
    }
}

/// What a run writes for the lines `from..to` whose texts are `texts`: each
/// text followed by a line feed.
pub open spec fn written(texts: Seq<Seq<char>>, from: int, to: int) -> Seq<char>
    decreases to - from,
{
    if to <= from {
        Seq::empty()
    } else {
        written(texts, from, to - 1) + texts[to - 1] + seq!['\n']
    }
}

/// The number of line feeds in `s`.
pub open spec fn newline_count(s: Seq<char>) -> nat
    decreases s.len(),
{
    if s.len() == 0 {
        0
    } else {
        newline_count(s.drop_last()) + if s.last() == '\n' { 1nat } else { 0nat }
    }
}

/// The number of lines that `BufRead::lines` reads from `s`: one per line
/// feed, and one more for text after the last line feed.
pub open spec fn line_count(s: Seq<char>) -> nat {
    newline_count(s) + if s.len() > 0 && s.last() != '\n' { 1nat } else { 0nat }
}

proof fn lemma_newline_count_concat(a: Seq<char>, b: Seq<char>)
    ensures
        newline_count(a + b) == newline_count(a) + newline_count(b),
    decreases b.len(),
{
    if b.len() == 0 {
        assert(a + b =~= a);
    } else {
        assert((a + b).drop_last() =~= a + b.drop_last());
        lemma_newline_count_concat(a, b.drop_last());
    }
}

proof fn lemma_no_newline(t: Seq<char>)
    requires
        !t.contains('\n'),
    ensures
        newline_count(t) == 0,
    decreases t.len(),
{
    if t.len() > 0 {
        assert(t.drop_last().len() < t.len());
        assert(!t.drop_last().contains('\n')) by {
            if t.drop_last().contains('\n') {
                let k = choose|k: int| 0 <= k < t.drop_last().len() && t.drop_last()[k] == '\n';
                assert(t[k] == '\n');
            }
        }
        assert(t[t.len() - 1] != '\n');
        lemma_no_newline(t.drop_last());
    }
}

proof fn lemma_written_split(texts: Seq<Seq<char>>, a: int, b: int, c: int)
    requires
        a <= b <= c,
    ensures
        written(texts, a, c) == written(texts, a, b) + written(texts, b, c),
    decreases c - b,
{
    if c == b {
        assert(written(texts, a, b) + written(texts, b, c) =~= written(texts, a, b));
    } else {
        lemma_written_split(texts, a, b, c - 1);
        assert(written(texts, a, c) =~= written(texts, a, b) + written(texts, b, c));
    }
}

proof fn lemma_written_lines(texts: Seq<Seq<char>>, j: int)
    requires
        0 <= j <= texts.len(),
        forall|i: int| 0 <= i < texts.len() ==> !(#[trigger] texts[i]).contains('\n'),
    ensures
        newline_count(written(texts, 0, j)) == j,
        j > 0 ==> written(texts, 0, j).len() > 0 && written(texts, 0, j).last() == '\n',
    decreases j,
{
    if j > 0 {
        lemma_written_lines(texts, j - 1);
        lemma_no_newline(texts[j - 1]);
        lemma_newline_count_concat(written(texts, 0, j - 1), texts[j - 1]);
        lemma_newline_count_concat(written(texts, 0, j - 1) + texts[j - 1], seq!['\n']);
        assert(seq!['\n'].drop_last() =~= Seq::<char>::empty());
        assert(newline_count(Seq::<char>::empty()) == 0);
        assert(newline_count(seq!['\n']) == 1);
    }
}

/// Resuming completes an interrupted translation. When a run over the
/// lines whose texts are `texts` (none holding a line feed) was cut after
/// `j` complete lines, the output holds `j` lines; a resumed run passes
/// over that many input lines (see [`CliArgs::output_plan`]) and appends
/// what the remaining lines give, and the output is then what one whole
/// run writes, no line repeated or lost.
pub proof fn lemma_resume_completes(texts: Seq<Seq<char>>, j: int)
    requires
        0 <= j <= texts.len(),
        forall|i: int| 0 <= i < texts.len() ==> !(#[trigger] texts[i]).contains('\n'),
    ensures
        line_count(written(texts, 0, j)) == j,
        written(texts, 0, j) + written(texts, j, texts.len() as int) == written(texts, 0, texts.len() as int),
{
    lemma_written_lines(texts, j);
    lemma_written_split(texts, 0, j, texts.len() as int);
}

/// How the output file is opened, and how many input lines are passed over.
#[derive(Clone, Copy, Debug, PartialEq, Eq, Structural)]
pub struct OutputPlan {
    /// Write after what the file holds.
    pub append: bool,
    /// Refuse a file that already exists.
    pub create_new: bool,
    /// Empty the file first.
    pub truncate: bool,
    /// Input lines to pass over before translating.
    pub skip_lines: usize,
}

/// The options of a translation.
#[derive(Debug)]
pub struct CliArgs {
    /// Number of starting lines to skip translation.
    pub skip_lines: usize,
    /// Line content pattern to skip from translation: tags, comments,
    /// images and the like are kept as they are.
    pub pattern_skip: String,
    /// Append to the output file.
    pub append: bool,
    /// Overwrite the output file.
    pub overwrite: bool,
    /// Resume the previous translation.
    pub resume: bool,
    /// Input file in Japanese.
    pub input_file: String,
    /// Output file in English.
    pub output_file: String,
}

impl CliArgs {
    /// The output plan: resuming appends and passes over as many input
    /// lines as the output file already has (`existing_lines`, read only
    /// when resuming); appending appends; overwriting empties the file;
    /// with none of these, the file must be new.
    pub fn output_plan(&self, existing_lines: usize) -> (p: OutputPlan)
        ensures
            p.append == (self.resume || self.append),
            p.create_new == !(self.overwrite || self.resume || self.append),
            p.truncate == !(self.resume || self.append),
            p.skip_lines == if self.resume { existing_lines } else { self.skip_lines },
    {
        let appending = self.resume || self.append;
        OutputPlan {
            append: appending,
            create_new: !(self.overwrite || appending),
            truncate: !appending,
            skip_lines: if self.resume { existing_lines } else { self.skip_lines },
        }
    }
}

} // verus!
