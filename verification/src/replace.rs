//! Substring replacement (`str::replace`) and replacement plans: a plan is a
//! sequence of `(find, replace)` steps applied one after the other.

use vstd::prelude::*;
use vstd::string::StringExecFns;
use crate::text::{chars_of, push_char, text_at};

verus! {

broadcast use vstd::string::group_string_axioms;

/// `rep` before every character of `s` and after the last one: what
/// `str::replace` gives for an empty pattern.
pub open spec fn interleaved(s: Seq<char>, rep: Seq<char>) -> Seq<char>
    decreases s.len(),
{
    if s.len() == 0 {
        rep
    } else {
        rep + seq![s[0]] + interleaved(s.skip(1), rep)
    }
}

/// Every non-overlapping occurrence of `pat` in `s`, taken from the left,
/// replaced by `rep` (`str::replace`).
pub open spec fn replaced(s: Seq<char>, pat: Seq<char>, rep: Seq<char>) -> Seq<char>
    decreases s.len(),
{
    if pat.len() == 0 {
        interleaved(s, rep)
    } else if s.len() < pat.len() {
        s
    } else if s.take(pat.len() as int) == pat {
        rep + replaced(s.skip(pat.len() as int), pat, rep)
    } else {
        seq![s[0]] + replaced(s.skip(1), pat, rep)
    }
}

/// `s` with each step of `plan` applied in order.
pub open spec fn apply_all(s: Seq<char>, plan: Seq<(Seq<char>, Seq<char>)>) -> Seq<char>
    decreases plan.len(),
{
    if plan.len() == 0 {
        s
    } else {
        replaced(apply_all(s, plan.drop_last()), plan.last().0, plan.last().1)
    }
}

/// The character views of a list of `(find, replace)` pairs.
pub open spec fn pair_views(v: Seq<(String, String)>) -> Seq<(Seq<char>, Seq<char>)> {
    v.map_values(|e: (String, String)| (e.0@, e.1@))
}

/// How many times `pat` occurs in `s`, counted as [`replaced`] replaces:
/// without overlap, from the left; an empty pattern occurs before every
/// character and at the end (`str::matches(..).count()`).
pub open spec fn match_count(s: Seq<char>, pat: Seq<char>) -> nat
    decreases s.len(),
{
    if pat.len() == 0 {
        s.len() + 1
    } else if s.len() < pat.len() {
        0
    } else if s.take(pat.len() as int) == pat {
        1 + match_count(s.skip(pat.len() as int), pat)
    } else {
        match_count(s.skip(1), pat)
    }
}

/// A count as a `usize`, the largest one where it does not fit.
pub open spec fn count_in_usize(c: nat) -> usize {
    if c <= usize::MAX {
        c as usize
    } else {
        usize::MAX
    }
}

/// One replacement that found something: the text found, its
/// replacement, and how many times it was found.
#[derive(Debug, PartialEq, Eq)]
pub struct Replacement {
    pub find: String,
    pub replace: String,
    pub count: usize,
}

/// The character views of a list of replacements.
pub open spec fn replacement_views(v: Seq<Replacement>) -> Seq<(Seq<char>, Seq<char>, usize)> {
    v.map_values(|r: Replacement| (r.find@, r.replace@, r.count))
}

/// What one step reports: the step and its count when `find` occurs in
/// `text`, nothing otherwise.
pub open spec fn step_report(text: Seq<char>, find: Seq<char>, rep: Seq<char>) -> Seq<(Seq<char>, Seq<char>, usize)> {
    let c = match_count(text, find);
    if c > 0 {
        seq![(find, rep, count_in_usize(c))]
    } else {
        Seq::empty()
    }
}

/// What the steps of `plan`, applied in order from `text`, report.
pub open spec fn plan_report(text: Seq<char>, plan: Seq<(Seq<char>, Seq<char>)>) -> Seq<(Seq<char>, Seq<char>, usize)>
    decreases plan.len(),
{
    if plan.len() == 0 {
        Seq::empty()
    } else {
        plan_report(text, plan.drop_last()) + step_report(
            apply_all(text, plan.drop_last()),
            plan.last().0,
            plan.last().1,
        )
    }
}

/// Whether `pat` occurs in `s` at some position.
pub open spec fn occurs_in(s: Seq<char>, pat: Seq<char>) -> bool {
    exists|i: int| 0 <= i && i + pat.len() <= s.len() && #[trigger] s.subrange(i, i + pat.len()) == pat
}

/// Replaces every non-overlapping occurrence of `find` in `contents`,
/// from the left, by `replace` (`str::replace`). Where `find` does not
/// occur, the text comes back unchanged.
pub fn replace_single(contents: String, find: &String, replace: &String) -> (r: String)
    ensures
        r@ == replaced(contents@, find@, replace@),
{
    let v = chars_of(contents.as_str());
    let p = chars_of(find.as_str());
    let rep = replace.as_str();
    let n = v.len();
    let m = p.len();
    let mut out = String::new();
    if m == 0 {
        let mut i: usize = 0;
        assert(v@.skip(0) =~= v@);
        while i < n
            invariant
                i <= n == v.len(),
                v@ == contents@,
                out@ + interleaved(v@.skip(i as int), rep@) == interleaved(v@, rep@),
            decreases n - i,
        {
            let ghost t = v@.skip(i as int);
            assert(t.skip(1) =~= v@.skip(i + 1));
            assert(interleaved(t, rep@) == rep@ + seq![t[0]] + interleaved(v@.skip(i + 1), rep@));
            out.append(rep);
            push_char(&mut out, v[i]);
            assert(out@ + interleaved(v@.skip(i + 1), rep@) =~= interleaved(v@, rep@));
            i = i + 1;
        }
        assert(v@.skip(n as int).len() == 0);
        out.append(rep);
        return out;
    }
    let mut i: usize = 0;
    assert(v@.skip(0) =~= v@);
    while i < n
        invariant
            i <= n == v.len(),
            m == p.len() > 0,
            v@ == contents@,
            p@ == find@,
            rep@ == replace@,
            out@ + replaced(v@.skip(i as int), p@, rep@) == replaced(v@, p@, rep@),
        decreases n - i,
    {
        let ghost t = v@.skip(i as int);
        if n - i < m {
            assert(replaced(t, p@, rep@) == t);
            while i < n
                invariant
                    i <= n == v.len(),
                    v@ == contents@,
                    p@ == find@,
                    rep@ == replace@,
                    out@ + v@.skip(i as int) == replaced(v@, p@, rep@),
                decreases n - i,
            {
                assert(v@.skip(i as int) =~= seq![v@[i as int]] + v@.skip(i + 1));
                push_char(&mut out, v[i]);
                assert(out@ + v@.skip(i + 1) =~= replaced(v@, p@, rep@));
                i = i + 1;
            }
            assert(v@.skip(n as int).len() == 0);
            assert(out@ =~= replaced(v@, p@, rep@));
            return out;
        }
        if text_at(&v, i, &p) {
            assert(t.take(m as int) =~= v@.subrange(i as int, i + m));
            assert(t.skip(m as int) =~= v@.skip(i + m));
            out.append(rep);
            assert(out@ + replaced(v@.skip(i + m), p@, rep@) =~= replaced(v@, p@, rep@));
            i = i + m;
        } else {
            assert(t.take(m as int) =~= v@.subrange(i as int, i + m));
            assert(t.skip(1) =~= v@.skip(i + 1));
            push_char(&mut out, v[i]);
            assert(out@ + replaced(v@.skip(i + 1), p@, rep@) =~= replaced(v@, p@, rep@));
            i = i + 1;
        }
    }
    assert(v@.skip(n as int).len() == 0);
    assert(replaced(v@.skip(n as int), p@, rep@) == v@.skip(n as int));
    assert(out@ =~= replaced(v@, p@, rep@));
    out
}

/// How many times `find` occurs in `contents`, without overlap, from the
/// left (`str::matches(..).count()`).
pub fn count_matches(contents: &str, find: &str) -> (n: usize)
    ensures
        n == count_in_usize(match_count(contents@, find@)),
{
    let v = chars_of(contents);
    let p = chars_of(find);
    let n = v.len();
    let m = p.len();
    if m == 0 {
        return if n < usize::MAX { n + 1 } else { usize::MAX };
    }
    let mut count: usize = 0;
    let mut i: usize = 0;
    assert(v@.skip(0) =~= v@);
    while i < n
        invariant
            i <= n == v.len(),
            m == p.len() > 0,
            v@ == contents@,
            p@ == find@,
            count <= i,
            count + match_count(v@.skip(i as int), p@) == match_count(v@, p@),
        decreases n - i,
    {
        let ghost t = v@.skip(i as int);
        if n - i < m {
            assert(match_count(t, p@) == 0);
            assert(count == match_count(v@, p@));
            return count;
        }
        if text_at(&v, i, &p) {
            assert(t.take(m as int) =~= v@.subrange(i as int, i + m));
            assert(t.skip(m as int) =~= v@.skip(i + m));
            count = count + 1;
            i = i + m;
        } else {
            assert(t.take(m as int) =~= v@.subrange(i as int, i + m));
            assert(t.skip(1) =~= v@.skip(i + 1));
            i = i + 1;
        }
    }
    assert(v@.skip(n as int).len() == 0);
    assert(match_count(v@.skip(n as int), p@) == 0);
    count
}

/// Where `pat` does not occur, replacing it changes nothing.
pub proof fn lemma_no_match_unchanged(s: Seq<char>, pat: Seq<char>, rep: Seq<char>)
    requires
        match_count(s, pat) == 0,
    ensures
        replaced(s, pat, rep) == s,
    decreases s.len(),
{
    if s.len() >= pat.len() && pat.len() > 0 {
        lemma_no_match_unchanged(s.skip(1), pat, rep);
        assert(seq![s[0]] + s.skip(1) =~= s);
    }
}

/// One step of a plan that first counts what it finds: the text is
/// replaced only where `find` occurs, and the step is reported then.
pub fn replace_counted(contents: String, find: &String, replace: &String, report: &mut Vec<Replacement>) -> (r: String)
    ensures
        r@ == replaced(contents@, find@, replace@),
        replacement_views(final(report)@) == replacement_views(old(report)@) + step_report(contents@, find@, replace@),
{
    let n = count_matches(contents.as_str(), find.as_str());
    if n > 0 {
        let ghost before = replacement_views(report@);
        let out = replace_single(contents, find, replace);
        report.push(Replacement { find: find.clone(), replace: replace.clone(), count: n });
        assert(replacement_views(report@) =~= before + step_report(contents@, find@, replace@));
        out
    } else {
        proof {
            lemma_no_match_unchanged(contents@, find@, replace@);
            assert(replacement_views(report@) =~= replacement_views(report@) + Seq::empty());
        }
        contents
    }
}

/// Applies each pair of `map` in order, reporting each pair that found
/// something.
pub fn replace_hashmap_reporting(contents: String, map: &Vec<(String, String)>, report: &mut Vec<Replacement>) -> (r: String)
    ensures
        r@ == apply_all(contents@, pair_views(map@)),
        replacement_views(final(report)@) == replacement_views(old(report)@) + plan_report(contents@, pair_views(map@)),
{
    let ghost plan = pair_views(map@);
    let ghost start = replacement_views(report@);
    let ghost text = contents@;
    let mut output = contents;
    let mut i: usize = 0;
    assert(plan.take(0) =~= Seq::<(Seq<char>, Seq<char>)>::empty());
    assert(start + plan_report(text, plan.take(0)) =~= start);
    while i < map.len()
        invariant
            i <= map.len(),
            plan == pair_views(map@),
            output@ == apply_all(text, plan.take(i as int)),
            replacement_views(report@) == start + plan_report(text, plan.take(i as int)),
        decreases map.len() - i,
    {
        assert(plan.take(i + 1).drop_last() =~= plan.take(i as int));
        output = replace_counted(output, &map[i].0, &map[i].1, report);
        assert(replacement_views(report@) =~= start + plan_report(text, plan.take(i + 1)));
        i = i + 1;
    }
    assert(plan.take(map.len() as int) =~= plan);
    output
}

/// Applies each `(find, replace)` pair of `map`, in order, with
/// [`replace_single`].
pub fn replace_hashmap(contents: String, map: &Vec<(String, String)>) -> (r: String)
    ensures
        r@ == apply_all(contents@, pair_views(map@)),
{
    let mut report: Vec<Replacement> = Vec::new();
    replace_hashmap_reporting(contents, map, &mut report)
}

/// What a plan applied after another reports is what the first reports,
/// then what the second reports from the first one's result.
pub proof fn lemma_report_concat(
    s: Seq<char>,
    p1: Seq<(Seq<char>, Seq<char>)>,
    p2: Seq<(Seq<char>, Seq<char>)>,
)
    ensures
        plan_report(s, p1 + p2) == plan_report(s, p1) + plan_report(apply_all(s, p1), p2),
    decreases p2.len(),
{
    if p2.len() == 0 {
        assert(p1 + p2 =~= p1);
        assert(plan_report(s, p1) + plan_report(apply_all(s, p1), p2) =~= plan_report(s, p1));
    } else {
        assert((p1 + p2).drop_last() =~= p1 + p2.drop_last());
        lemma_report_concat(s, p1, p2.drop_last());
        lemma_apply_concat(s, p1, p2.drop_last());
        assert(plan_report(s, p1 + p2) =~= plan_report(s, p1) + plan_report(apply_all(s, p1), p2));
    }
}

/// Where `pat` does not occur, replacing it changes nothing.
pub proof fn lemma_replace_absent(s: Seq<char>, pat: Seq<char>, rep: Seq<char>)
    requires
        pat.len() > 0,
        !occurs_in(s, pat),
    ensures
        replaced(s, pat, rep) == s,
    decreases s.len(),
{
    if s.len() >= pat.len() {
        assert(s.subrange(0int, 0int + pat.len()) =~= s.take(pat.len() as int));
        assert(s.subrange(0int, 0int + pat.len()) != pat);
        let t = s.skip(1);
        assert forall|i: int| 0 <= i && i + pat.len() <= t.len() implies #[trigger] t.subrange(i, i + pat.len()) != pat by {
            assert(t.subrange(i, i + pat.len()) =~= s.subrange(i + 1, i + 1 + pat.len()));
        }
        lemma_replace_absent(t, pat, rep);
        assert(seq![s[0]] + t =~= s);
    }
}

/// Replacing a non-empty text by itself changes nothing.
pub proof fn lemma_replace_same(s: Seq<char>, pat: Seq<char>)
    requires
        pat.len() > 0,
    ensures
        replaced(s, pat, pat) == s,
    decreases s.len(),
{
    if s.len() >= pat.len() {
        if s.take(pat.len() as int) == pat {
            lemma_replace_same(s.skip(pat.len() as int), pat);
            assert(pat + s.skip(pat.len() as int) =~= s);
        } else {
            lemma_replace_same(s.skip(1), pat);
            assert(seq![s[0]] + s.skip(1) =~= s);
        }
    }
}

/// A plan applied after another is the two plans applied as one.
pub proof fn lemma_apply_concat(
    s: Seq<char>,
    p1: Seq<(Seq<char>, Seq<char>)>,
    p2: Seq<(Seq<char>, Seq<char>)>,
)
    ensures
        apply_all(s, p1 + p2) == apply_all(apply_all(s, p1), p2),
    decreases p2.len(),
{
    if p2.len() == 0 {
        assert(p1 + p2 =~= p1);
    } else {
        assert((p1 + p2).drop_last() =~= p1 + p2.drop_last());
        lemma_apply_concat(s, p1, p2.drop_last());
    }
}

} // verus!
