//! Chapters of novels on ncode.syosetu.com: their addresses, and the text
//! of a chapter page.

use vstd::prelude::*;
use vstd::string::StringExecFns;
use crate::text::{chars_of, string_of_range, text_at, trim, trimmed};

verus! {

broadcast use vstd::string::group_string_axioms;

/// A chapter of a novel, by the novel's code and the chapter's number.
#[derive(Debug)]
pub struct Ncode {
    pub novel: String,
    pub chapter: String,
}

/// Why a chapter cannot be had.
#[derive(Debug, PartialEq, Eq, Structural)]
pub enum NcodeError {
    /// The address is not that of a chapter on ncode.syosetu.com.
    NotAnNcodeUrl,
    /// The page holds no chapter text.
    ContentsNotFound,
}

/// The address of chapter `chapter` of novel `novel`.
pub open spec fn chapter_url(novel: Seq<char>, chapter: Seq<char>) -> Seq<char> {
    "https://ncode.syosetu.com/"@ + novel + "/"@ + chapter
}

/// A character of a code: a lower-case ASCII letter or an ASCII digit.
pub open spec fn is_code_char(c: char) -> bool {
    let u = c as u32;
    (0x61 <= u <= 0x7a) || (0x30 <= u <= 0x39)
}

/// A code: one or more code characters.
pub open spec fn is_code(s: Seq<char>) -> bool {
    s.len() > 0 && forall|i: int| 0 <= i < s.len() ==> is_code_char(#[trigger] s[i])
}

/// The length of the `http://` or `https://` that `s` starts with, or 0.
pub open spec fn scheme_len(s: Seq<char>) -> int {
    if s.len() >= 8 && s.take(8) == "https://"@ {
        8
    } else if s.len() >= 7 && s.take(7) == "http://"@ {
        7
    } else {
        0
    }
}

/// Whether `r` starts with the site, `ncode.syosetu.com/`, where each dot
/// stands for any character but a line feed.
pub open spec fn has_site_prefix(r: Seq<char>) -> bool {
    &&& r.len() >= 18
    &&& r.take(5) == "ncode"@
    &&& r[5] != '\n'
    &&& r.subrange(6, 13) == "syosetu"@
    &&& r[13] != '\n'
    &&& r.subrange(14, 18) == "com/"@
}

/// The position of the first `/` in `s`, or its length.
pub open spec fn slash_index(s: Seq<char>) -> int
    decreases s.len(),
{
    if s.len() == 0 {
        0
    } else if s[0] == '/' {
        0
    } else {
        1 + slash_index(s.skip(1))
    }
}

/// The two codes of `code/code` or `code/code/`.
pub open spec fn code_pair(r: Seq<char>) -> Option<(Seq<char>, Seq<char>)> {
    let t = if r.len() > 0 && r.last() == '/' { r.drop_last() } else { r };
    let p = slash_index(t);
    if p < t.len() && is_code(t.take(p)) && is_code(t.skip(p + 1)) {
        Some((t.take(p), t.skip(p + 1)))
    } else {
        None
    }
}

/// The novel and chapter codes of an address, as the pattern
/// `^(https?://)?(ncode.syosetu.com/)?([a-z0-9]+)/([a-z0-9]+)/?$` captures
/// them: the site is taken where the rest still matches.
pub open spec fn ncode_url_parts(s: Seq<char>) -> Option<(Seq<char>, Seq<char>)> {
    let r = s.skip(scheme_len(s));
    if has_site_prefix(r) && code_pair(r.skip(18)) is Some {
        code_pair(r.skip(18))
    } else {
        code_pair(r)
    }
}

proof fn lemma_slash_index(s: Seq<char>, p: int)
    requires
        0 <= p <= s.len(),
        forall|k: int| 0 <= k < p ==> #[trigger] s[k] != '/',
        p < s.len() ==> s[p] == '/',
    ensures
        slash_index(s) == p,
    decreases p,
{
    if p > 0 {
        assert forall|k: int| 0 <= k < p - 1 implies #[trigger] s.skip(1)[k] != '/' by {
            assert(s.skip(1)[k] == s[k + 1]);
        }
        lemma_slash_index(s.skip(1), p - 1);
    }
}

/// `code/code` and `code/code/` are what [`code_pair`] accepts, and it
/// gives back the two codes.
pub proof fn lemma_code_pair_language(r: Seq<char>, a: Seq<char>, b: Seq<char>)
    requires
        is_code(a),
        is_code(b),
        r == a + seq!['/'] + b || r == a + seq!['/'] + b + seq!['/'],
    ensures
        code_pair(r) == Some((a, b)),
{
    let t = a + seq!['/'] + b;
    if r == a + seq!['/'] + b + seq!['/'] {
        assert(r.drop_last() =~= t);
    } else {
        assert(r.last() == b.last());
        assert(is_code_char(b.last()));
    }
    assert forall|k: int| 0 <= k < a.len() implies #[trigger] t[k] != '/' by {
        assert(t[k] == a[k]);
        assert(is_code_char(a[k]));
    }
    lemma_slash_index(t, a.len() as int);
    assert(t.take(a.len() as int) =~= a);
    assert(t.skip(a.len() as int + 1) =~= b);
}

/// Every pair that [`code_pair`] gives is two codes around a `/`, with or
/// without a `/` after them.
pub proof fn lemma_code_pair_sound(r: Seq<char>)
    requires
        code_pair(r) is Some,
    ensures
        ({
            let (a, b) = code_pair(r)->0;
            is_code(a) && is_code(b) && (r == a + seq!['/'] + b || r == a + seq!['/'] + b + seq!['/'])
        }),
{
    let t = if r.len() > 0 && r.last() == '/' { r.drop_last() } else { r };
    let p = slash_index(t);
    lemma_slash_index_bound(t);
    assert(t[p] == '/') by {
        lemma_slash_index_hit(t);
    }
    assert(t.take(p) + seq!['/'] + t.skip(p + 1) =~= t);
    if r.len() > 0 && r.last() == '/' {
        assert(t + seq!['/'] =~= r);
    }
}

proof fn lemma_slash_index_bound(s: Seq<char>)
    ensures
        0 <= slash_index(s) <= s.len(),
    decreases s.len(),
{
    if s.len() > 0 && s[0] != '/' {
        lemma_slash_index_bound(s.skip(1));
    }
}

proof fn lemma_slash_index_hit(s: Seq<char>)
    requires
        slash_index(s) < s.len(),
    ensures
        s[slash_index(s)] == '/',
    decreases s.len(),
{
    if s.len() > 0 && s[0] != '/' {
        lemma_slash_index_bound(s.skip(1));
        lemma_slash_index_hit(s.skip(1));
        assert(s.skip(1)[slash_index(s.skip(1))] == s[slash_index(s)]);
    }
}

/// The address that [`Ncode::url`] gives for a novel and a chapter reads
/// back as the same novel and chapter.
pub proof fn lemma_url_round_trip(novel: Seq<char>, chapter: Seq<char>)
    requires
        is_code(novel),
        is_code(chapter),
    ensures
        ncode_url_parts(chapter_url(novel, chapter)) == Some((novel, chapter)),
{
    reveal_strlit("https://ncode.syosetu.com/");
    reveal_strlit("https://");
    reveal_strlit("ncode");
    reveal_strlit("syosetu");
    reveal_strlit("com/");
    reveal_strlit("/");
    let s = chapter_url(novel, chapter);
    assert(s.take(8) =~= "https://"@);
    let r = s.skip(8);
    assert(r.take(5) =~= "ncode"@);
    assert(r.subrange(6, 13) =~= "syosetu"@);
    assert(r.subrange(14, 18) =~= "com/"@);
    assert(r.skip(18) =~= novel + seq!['/'] + chapter);
    lemma_code_pair_language(r.skip(18), novel, chapter);
}

/// The characters of the codes in the address pattern, `[a-z0-9]`.
pub open spec fn code_alphabet() -> Seq<char> {
    "abcdefghijklmnopqrstuvwxyz0123456789"@
}

/// Every lower-case ASCII letter and every ASCII digit is a code character.
pub proof fn lemma_alphabet_is_code(c: char)
    requires
        code_alphabet().contains(c),
    ensures
        is_code_char(c),
{
    reveal_strlit("abcdefghijklmnopqrstuvwxyz0123456789");
    let k = choose|k: int| 0 <= k < code_alphabet().len() && code_alphabet()[k] == c;
    assert(0 <= k < 36);
    if k == 0 { assert(c == 'a'); } else if k == 1 { assert(c == 'b'); } else if k == 2 { assert(c == 'c'); }
    else if k == 3 { assert(c == 'd'); } else if k == 4 { assert(c == 'e'); } else if k == 5 { assert(c == 'f'); }
    else if k == 6 { assert(c == 'g'); } else if k == 7 { assert(c == 'h'); } else if k == 8 { assert(c == 'i'); }
    else if k == 9 { assert(c == 'j'); } else if k == 10 { assert(c == 'k'); } else if k == 11 { assert(c == 'l'); }
    else if k == 12 { assert(c == 'm'); } else if k == 13 { assert(c == 'n'); } else if k == 14 { assert(c == 'o'); }
    else if k == 15 { assert(c == 'p'); } else if k == 16 { assert(c == 'q'); } else if k == 17 { assert(c == 'r'); }
    else if k == 18 { assert(c == 's'); } else if k == 19 { assert(c == 't'); } else if k == 20 { assert(c == 'u'); }
    else if k == 21 { assert(c == 'v'); } else if k == 22 { assert(c == 'w'); } else if k == 23 { assert(c == 'x'); }
    else if k == 24 { assert(c == 'y'); } else if k == 25 { assert(c == 'z'); } else if k == 26 { assert(c == '0'); }
    else if k == 27 { assert(c == '1'); } else if k == 28 { assert(c == '2'); } else if k == 29 { assert(c == '3'); }
    else if k == 30 { assert(c == '4'); } else if k == 31 { assert(c == '5'); } else if k == 32 { assert(c == '6'); }
    else if k == 33 { assert(c == '7'); } else if k == 34 { assert(c == '8'); } else { assert(c == '9'); }
}

/// Any novel and chapter codes written over `[a-z0-9]` read back from the
/// chapter's address: the address parser takes every such code.
pub proof fn lemma_any_codes_round_trip(novel: Seq<char>, chapter: Seq<char>)
    requires
        novel.len() > 0,
        chapter.len() > 0,
        forall|i: int| 0 <= i < novel.len() ==> code_alphabet().contains(#[trigger] novel[i]),
        forall|i: int| 0 <= i < chapter.len() ==> code_alphabet().contains(#[trigger] chapter[i]),
    ensures
        ncode_url_parts(chapter_url(novel, chapter)) == Some((novel, chapter)),
{
    assert forall|i: int| 0 <= i < novel.len() implies is_code_char(#[trigger] novel[i]) by {
        lemma_alphabet_is_code(novel[i]);
    }
    assert forall|i: int| 0 <= i < chapter.len() implies is_code_char(#[trigger] chapter[i]) by {
        lemma_alphabet_is_code(chapter[i]);
    }
    lemma_url_round_trip(novel, chapter);
}

fn is_code_range(v: &Vec<char>, lo: usize, hi: usize) -> (b: bool)
    requires
        lo <= hi <= v.len(),
    ensures
        b == is_code(v@.subrange(lo as int, hi as int)),
{
    if lo == hi {
        return false;
    }
    let mut i = lo;
    while i < hi
        invariant
            lo <= i <= hi <= v.len(),
            forall|k: int| lo <= k < i ==> is_code_char(#[trigger] v@[k]),
        decreases hi - i,
    {
        let u = v[i] as u32;
        if !((0x61 <= u && u <= 0x7a) || (0x30 <= u && u <= 0x39)) {
            assert(!is_code_char(v@.subrange(lo as int, hi as int)[i - lo]));
            return false;
        }
        i = i + 1;
    }
    assert forall|k: int| 0 <= k < hi - lo implies is_code_char(#[trigger] v@.subrange(lo as int, hi as int)[k]) by {
        assert(v@.subrange(lo as int, hi as int)[k] == v@[lo + k]);
    }
    true
}

/// The two codes of `v[lo..]`, as [`code_pair`] gives them.
fn code_pair_at(v: &Vec<char>, lo: usize) -> (r: Option<(String, String)>)
    requires
        lo <= v.len(),
    ensures
        match code_pair(v@.skip(lo as int)) {
            Some((a, b)) => r matches Some((x, y)) && x@ == a && y@ == b,
            None => r is None,
        },
{
    let ghost r = v@.skip(lo as int);
    let mut hi = v.len();
    if hi > lo && v[hi - 1] == '/' {
        hi = hi - 1;
        assert(r.drop_last() =~= v@.subrange(lo as int, hi as int));
    } else {
        assert(r =~= v@.subrange(lo as int, hi as int));
    }
    let ghost t = v@.subrange(lo as int, hi as int);
    let mut p = lo;
    while p < hi && v[p] != '/'
        invariant
            lo <= p <= hi <= v.len(),
            forall|k: int| lo <= k < p ==> #[trigger] v@[k] != '/',
        decreases hi - p,
    {
        p = p + 1;
    }
    proof {
        assert forall|k: int| 0 <= k < p - lo implies #[trigger] t[k] != '/' by {
            assert(t[k] == v@[lo + k]);
        }
        lemma_slash_index(t, p - lo);
    }
    if p == hi {
        return None;
    }
    assert(t.take(p - lo) =~= v@.subrange(lo as int, p as int));
    assert(t.skip(p - lo + 1) =~= v@.subrange(p + 1, hi as int));
    if is_code_range(v, lo, p) && is_code_range(v, p + 1, hi) {
        Some((string_of_range(v, lo, p), string_of_range(v, p + 1, hi)))
    } else {
        None
    }
}

impl Ncode {
    /// The chapter's address: `https://ncode.syosetu.com/{novel}/{chapter}`.
    pub fn url(&self) -> (r: String)
        ensures
            r@ == chapter_url(self.novel@, self.chapter@),
    {
        let mut r = String::from_str("https://ncode.syosetu.com/");
        r.append(self.novel.as_str());
        r.append("/");
        r.append(self.chapter.as_str());
        r
    }

    /// The chapter that an address names: `novel/chapter`, optionally
    /// after `ncode.syosetu.com/` and `http://` or `https://`, optionally
    /// with a final `/`.
    pub fn from_address(address: &str) -> (r: Result<Ncode, NcodeError>)
        ensures
            match ncode_url_parts(address@) {
                Some((a, b)) => r matches Ok(n) && n.novel@ == a && n.chapter@ == b,
                None => r == Err::<Ncode, NcodeError>(NcodeError::NotAnNcodeUrl),
            },
    {
        let v = chars_of(address);
        let https = chars_of("https://");
        let http = chars_of("http://");
        proof {
            reveal_strlit("https://");
            reveal_strlit("http://");
            reveal_strlit("ncode");
            reveal_strlit("syosetu");
            reveal_strlit("com/");
        }
        let lo: usize = if text_at(&v, 0, &https) {
            assert(v@.subrange(0, 8) =~= v@.take(8));
            8
        } else if text_at(&v, 0, &http) {
            proof {
                if v@.len() >= 8 {
                    assert(v@.take(8) =~= v@.subrange(0, 8));
                }
            }
            assert(v@.subrange(0, 7) =~= v@.take(7));
            7
        } else {
            proof {
                if v@.len() >= 8 {
                    assert(v@.take(8) =~= v@.subrange(0, 8));
                }
                if v@.len() >= 7 {
                    assert(v@.take(7) =~= v@.subrange(0, 7));
                }
            }
            0
        };
        assert(lo == scheme_len(address@));
        let ghost r = v@.skip(lo as int);
        let ncode = chars_of("ncode");
        let syosetu = chars_of("syosetu");
        let com = chars_of("com/");
        let site = text_at(&v, lo, &ncode) && lo + 5 < v.len() && v[lo + 5] != '\n' && text_at(&v, lo + 6, &syosetu)
            && lo + 13 < v.len() && v[lo + 13] != '\n' && text_at(&v, lo + 14, &com);
        assert(site == has_site_prefix(r)) by {
            if lo + 18 <= v.len() {
                assert(r.take(5) =~= v@.subrange(lo as int, lo + 5));
                assert(r.subrange(6, 13) =~= v@.subrange(lo + 6, lo + 13));
                assert(r.subrange(14, 18) =~= v@.subrange(lo + 14, lo + 18));
            }
        }
        let parts = if site {
            assert(r.skip(18) =~= v@.skip(lo + 18));
            match code_pair_at(&v, lo + 18) {
                Some(p) => Some(p),
                None => code_pair_at(&v, lo),
            }
        } else {
            code_pair_at(&v, lo)
        };
        match parts {
            Some((novel, chapter)) => Ok(Ncode { novel, chapter }),
            None => Err(NcodeError::NotAnNcodeUrl),
        }
    }

    /// The text of the chapter on a chapter page: that of its element with
    /// the id `novel_honbun`.
    pub fn chapter_text(page: &str) -> (r: Result<String, NcodeError>)
        ensures
            match element_text_by_id(page@, "novel_honbun"@) {
                Some(t) => r matches Ok(s) && s@ == t,
                None => r == Err::<String, NcodeError>(NcodeError::ContentsNotFound),
            },
    {
        match element_text(page, "novel_honbun") {
            Some(t) => Ok(t),
            None => Err(NcodeError::ContentsNotFound),
        }
    }
}

/// The text of the first element of the HTML document `page` whose `id`
/// attribute is `id`, as the `select` crate gives it.
pub uninterp spec fn element_text_by_id(page: Seq<char>, id: Seq<char>) -> Option<Seq<char>>;

/// Trusted: `select::document::Document::from` parses `page` as HTML,
/// `find` with the predicate `Attr("id", id)` walks its elements in
/// document order and `Node::text` gives the text of the first one found.
/// The contract names that result and claims nothing more of it than that
/// it depends on `page` and `id` alone.
#[verifier::external_body]
fn element_text(page: &str, id: &str) -> (r: Option<String>)
    ensures
        match element_text_by_id(page@, id@) {
            Some(t) => r matches Some(s) && s@ == t,
            None => r is None,
        },
{
    let doc = select::document::Document::from(page);
    match doc.find(select::predicate::Attr("id", id)).next() {
        Some(node) => Some(node.text()),
        None => None,
    }
}

/// What is written to a chapter file: the chapter text without surrounding
/// white space, and a line feed.
pub fn chapter_file_contents(text: &str) -> (r: String)
    ensures
        r@ == trimmed(text@) + "\n"@,
{
    let mut r = trim(text);
    r.append("\n");
    r
}

} // verus!
