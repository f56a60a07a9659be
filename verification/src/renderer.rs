//! Combining several versions of a chapter, line by line, into one HTML
//! page: the lines of the first version decide where paragraphs break.

use vstd::prelude::*;
use vstd::string::StringExecFns;
use crate::text::{is_blank, is_blank_text, decimal, push_decimal};

verus! {

broadcast use vstd::string::group_string_axioms;

// ---------------------------------------------------------------------------
// Chapter lines

/// Whether a line of the chapter holds text or marks a paragraph break.
#[derive(Clone, Copy, Debug, PartialEq, Eq, Structural)]
pub enum LineType {
    Contents,
    ParagraphBreak,
}

/// One line of the chapter, with the texts that the versions give for it.
#[derive(Debug)]
pub struct ChapterLine {
    pub linetype: LineType,
    pub linenum: usize,
    pub contents: Vec<String>,
}

impl ChapterLine {
    /// A chapter line is well formed when a paragraph break holds no text
    /// and a line of contents starts with a text that is not blank.
    pub open spec fn well_formed(&self) -> bool {
        &&& self.linetype == LineType::ParagraphBreak ==> self.contents@.len() == 0
        &&& self.linetype == LineType::Contents ==> self.contents@.len() >= 1 && !is_blank_text(self.contents@[0]@)
    }

    /// A line from the first version: a blank text marks a paragraph
    /// break and is dropped; any other text is the line's first content.
    pub fn new(linum: usize, contents: String) -> (r: ChapterLine)
        ensures
            r.linenum == linum,
            r.well_formed(),
            is_blank_text(contents@) ==> r.linetype == LineType::ParagraphBreak && r.contents@.len() == 0,
            !is_blank_text(contents@) ==> r.linetype == LineType::Contents && r.contents@ == seq![contents],
    {
        if is_blank(contents.as_str()) {
            ChapterLine { linetype: LineType::ParagraphBreak, linenum: linum, contents: Vec::new() }
        } else {
            let mut v: Vec<String> = Vec::new();
            v.push(contents);
            ChapterLine { linetype: LineType::Contents, linenum: linum, contents: v }
        }
    }

    /// Adds another version's text for this line. A paragraph break takes
    /// only blank text, and keeps nothing of it.
    pub fn add(&mut self, contents: String)
        requires
            old(self).linetype == LineType::Contents || is_blank_text(contents@),
        ensures
            final(self).linetype == old(self).linetype,
            final(self).linenum == old(self).linenum,
            old(self).well_formed() ==> final(self).well_formed(),
            old(self).linetype == LineType::Contents ==> final(self).contents@ == old(self).contents@.push(contents),
            old(self).linetype == LineType::ParagraphBreak ==> final(self).contents@ == old(self).contents@,
    {
        match self.linetype {
            LineType::Contents => self.contents.push(contents),
            LineType::ParagraphBreak => {},
        }
    }
}

/// How many lines of a version are read: all of them, at most `num_lines`.
pub open spec fn lines_read(file: Vec<String>, num_lines: usize) -> int {
    if file@.len() < num_lines {
        file@.len() as int
    } else {
        num_lines as int
    }
}

/// The texts that the first `k` versions give for line `i`, in order.
pub open spec fn column(files: Seq<Vec<String>>, i: int, num_lines: usize, k: int) -> Seq<String>
    decreases k,
{
    if k <= 0 {
        Seq::empty()
    } else {
        let before = column(files, i, num_lines, k - 1);
        if i < lines_read(files[k - 1], num_lines) {
            before.push(files[k - 1]@[i])
        } else {
            before
        }
    }
}

/// The texts of a line are one text from each version that has the line,
/// in the order of the versions: `ks` numbers those versions, increasing,
/// and names every version that has the line.
pub open spec fn texts_from_versions(files: Seq<Vec<String>>, i: int, num_lines: usize, k: int, texts: Seq<String>, ks: Seq<int>) -> bool {
    &&& ks.len() == texts.len()
    &&& forall|m: int| 0 <= m < ks.len() ==> {
        &&& 0 <= #[trigger] ks[m] < k
        &&& i < lines_read(files[ks[m]], num_lines)
        &&& texts[m] == files[ks[m]]@[i]
    }
    &&& forall|m1: int, m2: int| 0 <= m1 < m2 < ks.len() ==> #[trigger] ks[m1] < #[trigger] ks[m2]
    &&& forall|v: int| 0 <= v < k && i < lines_read(#[trigger] files[v], num_lines) ==> ks.contains(v)
}

/// The texts that the first `k` versions give for line `i` are exactly
/// one text from each of those versions that has the line, in version
/// order; no version is left out or taken twice.
pub proof fn lemma_column_is_every_version(files: Seq<Vec<String>>, i: int, num_lines: usize, k: int)
    requires
        0 <= k <= files.len(),
    ensures
        exists|ks: Seq<int>| #[trigger] texts_from_versions(files, i, num_lines, k, column(files, i, num_lines, k), ks),
    decreases k,
{
    if k == 0 {
        assert(texts_from_versions(files, i, num_lines, 0, column(files, i, num_lines, 0), Seq::<int>::empty()));
    } else {
        lemma_column_is_every_version(files, i, num_lines, k - 1);
        let ks = choose|ks: Seq<int>| #[trigger] texts_from_versions(files, i, num_lines, k - 1, column(files, i, num_lines, k - 1), ks);
        let before = column(files, i, num_lines, k - 1);
        if i < lines_read(files[k - 1], num_lines) {
            let ks2 = ks.push(k - 1);
            assert forall|v: int| 0 <= v < k && i < lines_read(#[trigger] files[v], num_lines) implies ks2.contains(v) by {
                if v < k - 1 {
                    assert(ks.contains(v));
                    let m = choose|m: int| 0 <= m < ks.len() && ks[m] == v;
                    assert(ks2[m] == v);
                } else {
                    assert(ks2[ks.len() as int] == v);
                }
            }
            assert forall|m1: int, m2: int| 0 <= m1 < m2 < ks2.len() implies #[trigger] ks2[m1] < #[trigger] ks2[m2] by {
                if m2 < ks.len() {
                    assert(ks[m1] < ks[m2]);
                } else {
                    assert(ks2[m1] == ks[m1]);
                }
            }
            assert(texts_from_versions(files, i, num_lines, k, column(files, i, num_lines, k), ks2));
        } else {
            assert forall|v: int| 0 <= v < k && i < lines_read(#[trigger] files[v], num_lines) implies ks.contains(v) by {
                assert(v < k - 1);
            }
            assert(texts_from_versions(files, i, num_lines, k, column(files, i, num_lines, k), ks));
        }
    }
}

/// The versions can be combined: no later version has more lines than the
/// first, and where the first has a blank line, so have the others.
pub open spec fn combinable(files: Seq<Vec<String>>, num_lines: usize) -> bool {
    &&& files.len() >= 1
    &&& forall|k: int| 1 <= k < files.len() ==> lines_read(#[trigger] files[k], num_lines) <= lines_read(files[0], num_lines)
    &&& forall|k: int, i: int|
        1 <= k < files.len() && 0 <= i < lines_read(files[k], num_lines) && is_blank_text(files[0]@[i]@)
            ==> is_blank_text((#[trigger] files[k]@[i])@)
}

/// The chapter lines of the versions `files`, each read up to `num_lines`
/// lines: one per line of the first version, numbered from 0, with the
/// texts of all versions that have that line.
pub fn get_file_contents(files: &Vec<Vec<String>>, num_lines: usize) -> (r: Vec<ChapterLine>)
    requires
        combinable(files@, num_lines),
    ensures
        r@.len() == lines_read(files@[0], num_lines),
        forall|i: int| 0 <= i < r@.len() ==> (#[trigger] r@[i]).well_formed(),
        forall|i: int| 0 <= i < r@.len() ==> (#[trigger] r@[i]).linenum == i,
        forall|i: int| 0 <= i < r@.len() ==> (#[trigger] r@[i]).linetype == if is_blank_text(files@[0]@[i]@) {
            LineType::ParagraphBreak
        } else {
            LineType::Contents
        },
        forall|i: int| 0 <= i < r@.len() ==> (#[trigger] r@[i]).contents@ == if is_blank_text(files@[0]@[i]@) {
            Seq::empty()
        } else {
            column(files@, i, num_lines, files@.len() as int)
        },
{
    let first = &files[0];
    let m0 = if first.len() < num_lines { first.len() } else { num_lines };
    let mut lines: Vec<ChapterLine> = Vec::new();
    let mut i: usize = 0;
    while i < m0
        invariant
            i <= m0,
            m0 == lines_read(files@[0], num_lines),
            *first == files@[0],
            combinable(files@, num_lines),
            lines@.len() == i,
            forall|j: int| 0 <= j < i ==> (#[trigger] lines@[j]).well_formed(),
            forall|j: int| 0 <= j < i ==> (#[trigger] lines@[j]).linenum == j,
            forall|j: int| 0 <= j < i ==> (#[trigger] lines@[j]).linetype == if is_blank_text(files@[0]@[j]@) {
                LineType::ParagraphBreak
            } else {
                LineType::Contents
            },
            forall|j: int| 0 <= j < i ==> (#[trigger] lines@[j]).contents@ == if is_blank_text(files@[0]@[j]@) {
                Seq::empty()
            } else {
                column(files@, j, num_lines, files@.len() as int)
            },
        decreases m0 - i,
    {
        let mut line = ChapterLine::new(i, first[i].clone());
        assert(column(files@, i as int, num_lines, 1) == seq![files@[0]@[i as int]]) by {
            assert(column(files@, i as int, num_lines, 0) == Seq::<String>::empty());
        }
        let mut k: usize = 1;
        while k < files.len()
            invariant
                1 <= k <= files.len(),
                i < m0 == lines_read(files@[0], num_lines),
                combinable(files@, num_lines),
                line.linenum == i,
                line.well_formed(),
                line.linetype == if is_blank_text(files@[0]@[i as int]@) {
                    LineType::ParagraphBreak
                } else {
                    LineType::Contents
                },
                line.linetype == LineType::Contents ==> line.contents@ == column(files@, i as int, num_lines, k as int),
                line.linetype == LineType::ParagraphBreak ==> line.contents@.len() == 0,
            decreases files.len() - k,
        {
            let file = &files[k];
            let mk = if file.len() < num_lines { file.len() } else { num_lines };
            if i < mk {
                assert(is_blank_text(files@[0]@[i as int]@) ==> is_blank_text(files@[k as int]@[i as int]@));
                line.add(file[i].clone());
            }
            k = k + 1;
        }
        lines.push(line);
        i = i + 1;
    }
    lines
}

// ---------------------------------------------------------------------------
// Line counts

/// Why the versions cannot be combined, by their line counts.
#[derive(Debug)]
pub enum LineCountError {
    /// No version was given.
    EmptyFileList,
    /// The versions have different numbers of lines (these).
    LengthMismatch { lines: Vec<usize> },
}

/// Whether some count differs from the first.
pub open spec fn counts_differ(c: Seq<usize>) -> bool {
    exists|k: int| 0 <= k < c.len() && #[trigger] c[k] != c[0]
}

/// Whether `m` is the least of the counts.
pub open spec fn is_least(m: usize, c: Seq<usize>) -> bool {
    &&& forall|k: int| 0 <= k < c.len() ==> m <= #[trigger] c[k]
    &&& exists|k: int| 0 <= k < c.len() && #[trigger] c[k] == m
}

/// The least of the line counts of the versions. With `check_len`, every
/// version must have as many lines as the first.
pub fn minimum_common_line(line_counts: &Vec<usize>, check_len: bool) -> (r: Result<usize, LineCountError>)
    ensures
        match r {
            Err(LineCountError::EmptyFileList) => line_counts@.len() == 0,
            Err(LineCountError::LengthMismatch { lines }) => line_counts@.len() > 0 && check_len
                && counts_differ(line_counts@) && lines@ == line_counts@,
            Ok(m) => line_counts@.len() > 0 && !(check_len && counts_differ(line_counts@)) && is_least(m, line_counts@),
        },
{
    if line_counts.len() == 0 {
        return Err(LineCountError::EmptyFileList);
    }
    let mut min_lines: usize = usize::MAX;
    let mut all_equal = true;
    let mut i: usize = 0;
    while i < line_counts.len()
        invariant
            0 < line_counts@.len(),
            i <= line_counts@.len(),
            forall|k: int| 0 <= k < i ==> min_lines <= #[trigger] line_counts@[k],
            i > 0 ==> exists|k: int| 0 <= k < i && #[trigger] line_counts@[k] == min_lines,
            all_equal == forall|k: int| 0 <= k < i ==> #[trigger] line_counts@[k] == line_counts@[0],
        decreases line_counts.len() - i,
    {
        if i == 0 || line_counts[i] < min_lines {
            min_lines = line_counts[i];
            assert(line_counts@[i as int] == min_lines);
        } else {
            let ghost w = choose|k: int| 0 <= k < i && #[trigger] line_counts@[k] == min_lines;
            assert(line_counts@[w] == min_lines);
        }
        if line_counts[i] != line_counts[0] {
            all_equal = false;
        }
        i = i + 1;
    }
    if check_len && !all_equal {
        let lines = line_counts.clone();
        return Err(LineCountError::LengthMismatch { lines });
    }
    Ok(min_lines)
}

// ---------------------------------------------------------------------------
// HTML

/// One character as HTML text: `&`, `<`, `>` and `"` become entities.
pub open spec fn escaped_char(c: char) -> Seq<char> {
    if c == '&' {
        "&amp;"@
    } else if c == '<' {
        "&lt;"@
    } else if c == '>' {
        "&gt;"@
    } else if c == '"' {
        "&quot;"@
    } else {
        seq![c]
    }
}

/// A text as HTML text, character by character.
pub open spec fn escaped(s: Seq<char>) -> Seq<char>
    decreases s.len(),
{
    if s.len() == 0 {
        Seq::empty()
    } else {
        escaped(s.drop_last()) + escaped_char(s.last())
    }
}

/// Text escaped for HTML holds no `<`, `>` or `"`: it cannot open or
/// close markup or end an attribute value.
pub proof fn lemma_escaped_is_inert(s: Seq<char>)
    ensures
        forall|i: int| 0 <= i < escaped(s).len() ==> {
            let c = #[trigger] escaped(s)[i];
            c != '<' && c != '>' && c != '"'
        },
    decreases s.len(),
{
    reveal_strlit("&amp;");
    reveal_strlit("&lt;");
    reveal_strlit("&gt;");
    reveal_strlit("&quot;");
    if s.len() > 0 {
        lemma_escaped_is_inert(s.drop_last());
        let a = escaped(s.drop_last());
        let b = escaped_char(s.last());
        assert forall|i: int| 0 <= i < escaped(s).len() implies {
            let c = #[trigger] escaped(s)[i];
            c != '<' && c != '>' && c != '"'
        } by {
            if i < a.len() {
                assert(escaped(s)[i] == a[i]);
            } else {
                assert(escaped(s)[i] == b[i - a.len()]);
            }
        }
    }
}

/// Appends `s`, escaped for HTML, to `out`.
/// Trusted: maud's `Render::render_to` for `str` writes each byte of `s`,
/// with `&`, `<`, `>` and `"` written as `&amp;`, `&lt;`, `&gt;` and
/// `&quot;`, after what `out` holds.
#[verifier::external_body]
fn push_escaped(out: &mut String, s: &str)
    ensures
        final(out)@ == old(out)@ + escaped(s@),
{
    maud::Render::render_to(s, out);
}

/// The start of every page: the document type and the title.
pub open spec fn page_head(title: Seq<char>) -> Seq<char> {
    "<!DOCTYPE html>"@ + "<title>"@ + escaped(title) + "</title>"@
}

/// The opening of the block for line `n`.
pub open spec fn line_open(n: nat) -> Seq<char> {
    "<div id=\"line-"@ + decimal(n) + "\">"@
}

/// What version `file` shows for line `i` on the side-by-side page: its
/// text, or nothing where it has no such line, then a line break.
pub open spec fn side_cell(file: Vec<String>, i: int) -> Seq<char> {
    "<div>"@ + (if i < file@.len() { escaped(file@[i]@) } else { Seq::empty() }) + "</div>"@ + "<br>"@
}

/// The cells of the first `k` versions for line `i`.
pub open spec fn side_cells(files: Seq<Vec<String>>, i: int, k: int) -> Seq<char>
    decreases k,
{
    if k <= 0 {
        Seq::empty()
    } else {
        side_cells(files, i, k - 1) + side_cell(files[k - 1], i)
    }
}

/// The block of line `i` (from 0) on the side-by-side page, numbered from 1.
pub open spec fn side_row(files: Seq<Vec<String>>, i: int) -> Seq<char> {
    line_open((i + 1) as nat) + "<div>"@ + side_cells(files, i, files.len() as int) + "</div>"@ + "</div>"@
}

/// The first `n` blocks of the side-by-side page.
pub open spec fn side_rows(files: Seq<Vec<String>>, n: int) -> Seq<char>
    decreases n,
{
    if n <= 0 {
        Seq::empty()
    } else {
        side_rows(files, n - 1) + side_row(files, n - 1)
    }
}

/// The texts of a line, each followed by a line break.
pub open spec fn content_cells(cs: Seq<String>) -> Seq<char>
    decreases cs.len(),
{
    if cs.len() == 0 {
        Seq::empty()
    } else {
        content_cells(cs.drop_last()) + escaped(cs.last()@) + "<br>"@
    }
}

/// The block of one chapter line.
pub open spec fn chapter_row(line: ChapterLine) -> Seq<char> {
    line_open(line.linenum as nat) + (match line.linetype {
        LineType::Contents => "<div>"@ + content_cells(line.contents@) + "</div>"@,
        LineType::ParagraphBreak => "<p></p>"@,
    }) + "</div>"@
}

/// The blocks of the chapter lines.
pub open spec fn chapter_rows(lines: Seq<ChapterLine>) -> Seq<char>
    decreases lines.len(),
{
    if lines.len() == 0 {
        Seq::empty()
    } else {
        chapter_rows(lines.drop_last()) + chapter_row(lines.last())
    }
}

fn push_head(out: &mut String, title: &str)
    ensures
        final(out)@ == old(out)@ + page_head(title@),
{
    out.append("<!DOCTYPE html>");
    out.append("<title>");
    push_escaped(out, title);
    out.append("</title>");
}

fn push_line_open(out: &mut String, n: usize)
    ensures
        final(out)@ == old(out)@ + line_open(n as nat),
{
    out.append("<div id=\"line-");
    push_decimal(out, n);
    out.append("\">");
}

/// The side-by-side page: for each line number from 1 to `num_lines`, the
/// line of every version in turn (`files[k]` holds the lines of version
/// `k`).
pub fn get_simple_html(title: &str, num_lines: usize, files: &Vec<Vec<String>>) -> (r: String)
    ensures
        r@ == page_head(title@) + side_rows(files@, num_lines as int),
{
    let mut out = String::new();
    push_head(&mut out, title);
    let mut i: usize = 0;
    while i < num_lines
        invariant
            i <= num_lines,
            out@ == page_head(title@) + side_rows(files@, i as int),
        decreases num_lines - i,
    {
        let ghost before = out@;
        push_line_open(&mut out, i + 1);
        out.append("<div>");
        let mut k: usize = 0;
        while k < files.len()
            invariant
                k <= files.len(),
                i < num_lines,
                out@ == before + line_open((i + 1) as nat) + "<div>"@ + side_cells(files@, i as int, k as int),
            decreases files.len() - k,
        {
            out.append("<div>");
            if i < files[k].len() {
                push_escaped(&mut out, files[k][i].as_str());
            }
            out.append("</div>");
            out.append("<br>");
            k = k + 1;
        }
        out.append("</div>");
        out.append("</div>");
        i = i + 1;
    }
    out
}

/// The chapter page: for each chapter line, its texts each followed by a
/// line break, or an empty paragraph for a paragraph break.
pub fn get_chapter_html(title: &str, chap_lines: &Vec<ChapterLine>) -> (r: String)
    ensures
        r@ == page_head(title@) + chapter_rows(chap_lines@),
{
    let mut out = String::new();
    push_head(&mut out, title);
    let mut i: usize = 0;
    assert(chap_lines@.take(0) =~= Seq::<ChapterLine>::empty());
    while i < chap_lines.len()
        invariant
            i <= chap_lines.len(),
            out@ == page_head(title@) + chapter_rows(chap_lines@.take(i as int)),
        decreases chap_lines.len() - i,
    {
        let line = &chap_lines[i];
        let ghost before = out@;
        push_line_open(&mut out, line.linenum);
        match line.linetype {
            LineType::Contents => {
                out.append("<div>");
                let mut j: usize = 0;
                let ghost mid = out@;
                assert(line.contents@.take(0) =~= Seq::<String>::empty());
                while j < line.contents.len()
                    invariant
                        j <= line.contents.len(),
                        out@ == mid + content_cells(line.contents@.take(j as int)),
                    decreases line.contents.len() - j,
                {
                    assert(line.contents@.take(j + 1).drop_last() =~= line.contents@.take(j as int));
                    push_escaped(&mut out, line.contents[j].as_str());
                    out.append("<br>");
                    j = j + 1;
                }
                assert(line.contents@.take(line.contents.len() as int) =~= line.contents@);
                out.append("</div>");
            },
            LineType::ParagraphBreak => {
                out.append("<p></p>");
            },
        }
        out.append("</div>");
        assert(chap_lines@.take(i + 1).drop_last() =~= chap_lines@.take(i as int));
        i = i + 1;
    }
    assert(chap_lines@.take(chap_lines.len() as int) =~= chap_lines@);
    out
}

} // verus!
