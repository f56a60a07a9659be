//! Renaming rules read from a replacement file: plain dictionaries,
//! names with honorifics, and names split into given and family parts.
//! Each rule becomes a plan of `(find, replace)` steps applied to the text.

use vstd::prelude::*;
use vstd::string::StringExecFns;
use crate::json::{JsonValue, member, string_dict, names_dict, names_views};
use crate::replace::{
    apply_all, pair_views, plan_report, replace_counted, replace_hashmap_reporting, replacement_views,
    step_report, lemma_apply_concat, lemma_report_concat, Replacement,
};
use crate::text::{joined, split_on, views, join, split_char};

verus! {

broadcast use vstd::string::group_string_axioms;

/// One rule of the replacement file.
pub struct Rule {
    /// The member of the file's contents that holds the rule's dictionary.
    pub key: String,
    pub name: String,
    /// Whether a name is split into parts that are also replaced alone.
    pub split: bool,
    /// For a rule about names: whether the given name and the family name
    /// stay untranslated when they stand alone.
    pub honorifics: Option<(bool, bool)>,
    pub description: Option<String>,
}

/// A replacement file: its rules, the honorific table (Japanese suffix to
/// English suffix) and the contents that the rules' keys name.
pub struct Replacements {
    pub rules: Vec<Rule>,
    pub honorifics: Vec<(String, String)>,
    pub contents: JsonValue,
}

/// Why a replacement file is refused before any replacement.
#[derive(Debug)]
pub enum RuleError {
    /// A rule without honorifics asks to split names.
    SplitNonName { key: String },
    /// A rule's key names no member of the contents.
    MissingKey { key: String },
}

/// Why a replacement fails.
#[derive(Debug)]
pub enum ReplaceError {
    /// The member that a rule's key names does not have the dictionary shape
    /// that the rule reads.
    InvalidJson { key: String },
    /// An English name has another number of space-separated parts than its
    /// Japanese name has parts.
    NameLengthMismatch { en_names: Vec<String>, jp_names: Vec<String> },
}

/// The character views of a [`ReplaceError`].
pub enum ReplaceFailure {
    InvalidJson(Seq<char>),
    NameLengthMismatch(Seq<Seq<char>>, Seq<Seq<char>>),
}

impl View for ReplaceError {
    type V = ReplaceFailure;

    open spec fn view(&self) -> ReplaceFailure {
        match self {
            ReplaceError::InvalidJson { key } => ReplaceFailure::InvalidJson(key@),
            ReplaceError::NameLengthMismatch { en_names, jp_names } => ReplaceFailure::NameLengthMismatch(
                views(en_names@),
                views(jp_names@),
            ),
        }
    }
}

// ---------------------------------------------------------------------------
// Checking the rules

/// What is wrong with one rule, if anything.
pub open spec fn rule_problem(rule: Rule, contents: JsonValue) -> Option<RuleError> {
    if rule.honorifics is None && rule.split {
        Some(RuleError::SplitNonName { key: rule.key })
    } else if member(contents, rule.key@) is None {
        Some(RuleError::MissingKey { key: rule.key })
    } else {
        None
    }
}

/// The problem of the first rule that has one.
pub open spec fn first_problem(rules: Seq<Rule>, contents: JsonValue) -> Option<RuleError>
    decreases rules.len(),
{
    if rules.len() == 0 {
        None
    } else {
        match rule_problem(rules[0], contents) {
            Some(e) => Some(e),
            None => first_problem(rules.skip(1), contents),
        }
    }
}

/// Every rule's key names a member of the contents.
pub open spec fn keys_present(rep: Replacements) -> bool {
    forall|i: int| 0 <= i < rep.rules@.len() ==> (#[trigger] member(rep.contents, rep.rules@[i].key@)) is Some
}

/// Checks the rules in order and reports the first problem.
pub fn verify_rules(rep: &Replacements) -> (r: Result<(), RuleError>)
    ensures
        r == match first_problem(rep.rules@, rep.contents) {
            Some(e) => Err(e),
            None => Ok(()),
        },
{
    let mut i: usize = 0;
    assert(rep.rules@.skip(0) =~= rep.rules@);
    while i < rep.rules.len()
        invariant
            i <= rep.rules.len(),
            first_problem(rep.rules@, rep.contents) == first_problem(rep.rules@.skip(i as int), rep.contents),
        decreases rep.rules.len() - i,
    {
        let rule = &rep.rules[i];
        assert(rep.rules@.skip(i as int).skip(1) =~= rep.rules@.skip(i + 1));
        assert(rep.rules@.skip(i as int)[0] == rep.rules@[i as int]);
        if rule.honorifics.is_none() && rule.split {
            return Err(RuleError::SplitNonName { key: rule.key.clone() });
        }
        if rep.contents.get(rule.key.as_str()).is_none() {
            return Err(RuleError::MissingKey { key: rule.key.clone() });
        }
        i = i + 1;
    }
    Ok(())
}

/// Rules that pass [`verify_rules`] all name a member of the contents, which
/// is what [`replace_string`] needs of them.
pub proof fn lemma_verified_rules_have_contents(rep: Replacements)
    requires
        first_problem(rep.rules@, rep.contents) is None,
    ensures
        keys_present(rep),
{
    lemma_no_problem(rep.rules@, rep.contents);
}

/// Which rule files pass the check: exactly those where no rule asks to
/// split names without honorifics and every rule's key names a member of
/// the contents. A rule with honorifics, whose key is present, is never
/// refused, split or not.
pub proof fn lemma_rules_accepted(rules: Seq<Rule>, contents: JsonValue)
    ensures
        first_problem(rules, contents) is None <==> forall|i: int| 0 <= i < rules.len() ==> {
            &&& !((#[trigger] rules[i]).honorifics is None && rules[i].split)
            &&& member(contents, rules[i].key@) is Some
        },
    decreases rules.len(),
{
    if rules.len() > 0 {
        lemma_rules_accepted(rules.skip(1), contents);
        assert forall|i: int| 1 <= i < rules.len() implies rules.skip(1)[i - 1] == #[trigger] rules[i] by {}
        if first_problem(rules, contents) is None {
            assert forall|i: int| 0 <= i < rules.len() implies {
                &&& !((#[trigger] rules[i]).honorifics is None && rules[i].split)
                &&& member(contents, rules[i].key@) is Some
            } by {
                if i > 0 {
                    assert(rules.skip(1)[i - 1] == rules[i]);
                }
            }
        } else {
            if rule_problem(rules[0], contents) is None {
                let k = choose|k: int| 0 <= k < rules.len() - 1 && !({
                    &&& !((#[trigger] rules.skip(1)[k]).honorifics is None && rules.skip(1)[k].split)
                    &&& member(contents, rules.skip(1)[k].key@) is Some
                });
                assert(rules.skip(1)[k] == rules[k + 1]);
            }
        }
    }
}

/// A refusal names the first refused rule and the reason: splitting names
/// without honorifics, or else a key that names no member.
pub proof fn lemma_refusal_reason(rules: Seq<Rule>, contents: JsonValue)
    requires
        first_problem(rules, contents) is Some,
    ensures
        exists|i: int| {
            &&& 0 <= i < rules.len()
            &&& forall|j: int| 0 <= j < i ==> rule_problem(#[trigger] rules[j], contents) is None
            &&& if (#[trigger] rules[i]).honorifics is None && rules[i].split {
                first_problem(rules, contents) == Some(RuleError::SplitNonName { key: rules[i].key })
            } else {
                &&& member(contents, rules[i].key@) is None
                &&& first_problem(rules, contents) == Some(RuleError::MissingKey { key: rules[i].key })
            }
        },
    decreases rules.len(),
{
    if rule_problem(rules[0], contents) is Some {
        assert(rules[0] == rules[0]);
    } else {
        lemma_refusal_reason(rules.skip(1), contents);
        let i = choose|i: int| {
            &&& 0 <= i < rules.skip(1).len()
            &&& forall|j: int| 0 <= j < i ==> rule_problem(#[trigger] rules.skip(1)[j], contents) is None
            &&& if (#[trigger] rules.skip(1)[i]).honorifics is None && rules.skip(1)[i].split {
                first_problem(rules.skip(1), contents) == Some(RuleError::SplitNonName { key: rules.skip(1)[i].key })
            } else {
                &&& member(contents, rules.skip(1)[i].key@) is None
                &&& first_problem(rules.skip(1), contents) == Some(RuleError::MissingKey { key: rules.skip(1)[i].key })
            }
        };
        assert(rules.skip(1)[i] == rules[i + 1]);
        assert forall|j: int| 0 <= j < i + 1 implies rule_problem(#[trigger] rules[j], contents) is None by {
            if j > 0 {
                assert(rules.skip(1)[j - 1] == rules[j]);
            }
        }
    }
}

proof fn lemma_no_problem(rules: Seq<Rule>, contents: JsonValue)
    requires
        first_problem(rules, contents) is None,
    ensures
        forall|i: int| 0 <= i < rules.len() ==> (#[trigger] member(contents, rules[i].key@)) is Some,
    decreases rules.len(),
{
    if rules.len() > 0 {
        lemma_no_problem(rules.skip(1), contents);
        assert forall|i: int| 0 <= i < rules.len() implies (#[trigger] member(contents, rules[i].key@)) is Some by {
            if i > 0 {
                assert(rules.skip(1)[i - 1] == rules[i]);
            }
        }
    }
}

// ---------------------------------------------------------------------------
// Replacement plans

/// `base_find` and `base_rep` with each honorific: the Japanese suffix after
/// the text to find, a hyphen and the English suffix after the replacement.
pub open spec fn suffixed(base_find: Seq<char>, base_rep: Seq<char>, hon: Seq<(Seq<char>, Seq<char>)>) -> Seq<(Seq<char>, Seq<char>)> {
    Seq::new(hon.len(), |j: int| (base_find + hon[j].0, base_rep + "-"@ + hon[j].1))
}

/// The steps for one whole name: the joined Japanese parts with each
/// honorific, the parts joined with a middle dot, the parts joined plainly.
pub open spec fn full_name_steps(en: Seq<char>, jps: Seq<Seq<char>>, hon: Seq<(Seq<char>, Seq<char>)>) -> Seq<(Seq<char>, Seq<char>)> {
    suffixed(joined(jps, ""@), en, hon) + seq![(joined(jps, "・"@), en), (joined(jps, ""@), en)]
}

/// The whole-name steps of every entry, in order.
pub open spec fn full_names_plan(d: Seq<(Seq<char>, Seq<Seq<char>>)>, hon: Seq<(Seq<char>, Seq<char>)>) -> Seq<(Seq<char>, Seq<char>)>
    decreases d.len(),
{
    if d.len() == 0 {
        Seq::empty()
    } else {
        full_names_plan(d.drop_last(), hon) + full_name_steps(d.last().0, d.last().1, hon)
    }
}

/// The UTF-8 length of a text, as `str::len` gives it.
pub open spec fn byte_len(s: Seq<char>) -> usize {
    vstd::utf8::encode_utf8(s).len() as usize
}

/// The steps for part `i` of `n`: the Japanese part with each honorific,
/// then, for the first part unless given names are kept, or the last part
/// unless family names are kept, the part alone when it is longer than the
/// threshold in bytes.
pub open spec fn part_steps(
    jp: Seq<char>,
    en: Seq<char>,
    i: int,
    n: int,
    hon: Seq<(Seq<char>, Seq<char>)>,
    first: bool,
    last: bool,
    threshold: usize,
) -> Seq<(Seq<char>, Seq<char>)> {
    suffixed(jp, en, hon) + if byte_len(jp) > threshold && ((i == 0 && !first) || (i == n - 1 && !last)) {
        seq![(jp, en)]
    } else {
        Seq::empty()
    }
}

/// The part steps for the first `k` parts.
pub open spec fn parts_steps(
    jps: Seq<Seq<char>>,
    ens: Seq<Seq<char>>,
    k: nat,
    hon: Seq<(Seq<char>, Seq<char>)>,
    first: bool,
    last: bool,
    threshold: usize,
) -> Seq<(Seq<char>, Seq<char>)>
    decreases k,
{
    if k == 0 {
        Seq::empty()
    } else {
        parts_steps(jps, ens, (k - 1) as nat, hon, first, last, threshold) + part_steps(
            jps[k - 1],
            ens[k - 1],
            k - 1,
            jps.len() as int,
            hon,
            first,
            last,
            threshold,
        )
    }
}

/// The part steps of every entry, in order; an English name is split at
/// spaces into its parts.
pub open spec fn parts_plan(
    d: Seq<(Seq<char>, Seq<Seq<char>>)>,
    hon: Seq<(Seq<char>, Seq<char>)>,
    first: bool,
    last: bool,
    threshold: usize,
) -> Seq<(Seq<char>, Seq<char>)>
    decreases d.len(),
{
    if d.len() == 0 {
        Seq::empty()
    } else {
        parts_plan(d.drop_last(), hon, first, last, threshold) + parts_steps(
            d.last().1,
            split_on(d.last().0, ' '),
            d.last().1.len(),
            hon,
            first,
            last,
            threshold,
        )
    }
}

/// The first entry whose English parts and Japanese parts differ in number.
pub open spec fn first_mismatch(d: Seq<(Seq<char>, Seq<Seq<char>>)>) -> Option<(Seq<Seq<char>>, Seq<Seq<char>>)>
    decreases d.len(),
{
    if d.len() == 0 {
        None
    } else if split_on(d[0].0, ' ').len() != d[0].1.len() {
        Some((split_on(d[0].0, ' '), d[0].1))
    } else {
        first_mismatch(d.skip(1))
    }
}

/// What a rule over split names does: all whole-name steps, then all part
/// steps; or the first entry whose parts do not pair up.
pub open spec fn names_outcome(
    d: Seq<(Seq<char>, Seq<Seq<char>>)>,
    hon: Seq<(Seq<char>, Seq<char>)>,
    first: bool,
    last: bool,
    threshold: usize,
) -> Result<Seq<(Seq<char>, Seq<char>)>, ReplaceFailure> {
    match first_mismatch(d) {
        Some((ens, jps)) => Err(ReplaceFailure::NameLengthMismatch(ens, jps)),
        None => Ok(full_names_plan(d, hon) + parts_plan(d, hon, first, last, threshold)),
    }
}

/// The position of the entry with key `k` (the last one), or -1.
pub open spec fn key_position(m: Seq<(Seq<char>, Seq<char>)>, k: Seq<char>) -> int
    decreases m.len(),
{
    if m.len() == 0 {
        -1
    } else if m.last().0 == k {
        m.len() - 1
    } else {
        key_position(m.drop_last(), k)
    }
}

/// A map insertion on a list of pairs: the entry with key `k` takes the
/// value `v`, or a new entry is added at the end.
pub open spec fn dict_insert(m: Seq<(Seq<char>, Seq<char>)>, k: Seq<char>, v: Seq<char>) -> Seq<(Seq<char>, Seq<char>)> {
    let p = key_position(m, k);
    if p >= 0 {
        m.update(p, (k, v))
    } else {
        m.push((k, v))
    }
}

/// The value of key `k` in a list of pairs used as a map.
pub open spec fn dict_get(m: Seq<(Seq<char>, Seq<char>)>, k: Seq<char>) -> Option<Seq<char>> {
    let p = key_position(m, k);
    if p >= 0 {
        Some(m[p].1)
    } else {
        None
    }
}

proof fn lemma_key_position(m: Seq<(Seq<char>, Seq<char>)>, k: Seq<char>)
    ensures
        -1 <= key_position(m, k) < m.len(),
        key_position(m, k) >= 0 ==> m[key_position(m, k)].0 == k,
        forall|j: int| key_position(m, k) < j < m.len() ==> (#[trigger] m[j]).0 != k,
    decreases m.len(),
{
    if m.len() > 0 && m.last().0 != k {
        lemma_key_position(m.drop_last(), k);
        assert forall|j: int| key_position(m, k) < j < m.len() implies (#[trigger] m[j]).0 != k by {
            if j < m.len() - 1 {
                assert(m.drop_last()[j] == m[j]);
            }
        }
    }
}

proof fn lemma_key_position_is(m: Seq<(Seq<char>, Seq<char>)>, k: Seq<char>, p: int)
    requires
        -1 <= p < m.len(),
        p >= 0 ==> m[p].0 == k,
        forall|j: int| p < j < m.len() ==> (#[trigger] m[j]).0 != k,
    ensures
        key_position(m, k) == p,
{
    lemma_key_position(m, k);
    let q = key_position(m, k);
    if q > p {
        assert(m[q].0 != k);
    }
    if q < p {
        assert(m[p].0 != k);
    }
}

/// Inserting into a list of pairs used as a map behaves as a map: the key
/// then holds the inserted value, and every other key keeps its value.
pub proof fn lemma_dict_insert_get(m: Seq<(Seq<char>, Seq<char>)>, k: Seq<char>, v: Seq<char>, other: Seq<char>)
    requires
        other != k,
    ensures
        dict_get(dict_insert(m, k, v), k) == Some(v),
        dict_get(dict_insert(m, k, v), other) == dict_get(m, other),
{
    lemma_key_position(m, k);
    lemma_key_position(m, other);
    let p = key_position(m, k);
    let q = key_position(m, other);
    let n = dict_insert(m, k, v);
    if p >= 0 {
        assert forall|j: int| p < j < n.len() implies (#[trigger] n[j]).0 != k by {
            assert(n[j] == m[j]);
        }
        lemma_key_position_is(n, k, p);
        assert forall|j: int| q < j < n.len() implies (#[trigger] n[j]).0 != other by {
            if j != p {
                assert(n[j] == m[j]);
            }
        }
        if q >= 0 {
            assert(q != p);
            assert(n[q] == m[q]);
        }
        lemma_key_position_is(n, other, q);
    } else {
        lemma_key_position_is(n, k, m.len() as int);
        assert forall|j: int| q < j < n.len() implies (#[trigger] n[j]).0 != other by {
            if j < m.len() {
                assert(n[j] == m[j]);
            }
        }
        if q >= 0 {
            assert(n[q] == m[q]);
        }
        lemma_key_position_is(n, other, q);
    }
}

/// Each pair inserted in order with [`dict_insert`].
pub open spec fn insert_all(m: Seq<(Seq<char>, Seq<char>)>, pairs: Seq<(Seq<char>, Seq<char>)>) -> Seq<(Seq<char>, Seq<char>)>
    decreases pairs.len(),
{
    if pairs.len() == 0 {
        m
    } else {
        dict_insert(insert_all(m, pairs.drop_last()), pairs.last().0, pairs.last().1)
    }
}

/// For a dictionary from English to Japanese names: each Japanese name with
/// each honorific, to the English name with the English honorific.
pub open spec fn honorific_pairs(d: Seq<(Seq<char>, Seq<char>)>, hon: Seq<(Seq<char>, Seq<char>)>) -> Seq<(Seq<char>, Seq<char>)>
    decreases d.len(),
{
    if d.len() == 0 {
        Seq::empty()
    } else {
        honorific_pairs(d.drop_last(), hon) + suffixed(d.last().1, d.last().0, hon)
    }
}

/// The honorific dictionary: the honorific pairs as a map, a later pair
/// taking the place of an earlier one with the same key.
pub open spec fn honorific_dict(d: Seq<(Seq<char>, Seq<char>)>, hon: Seq<(Seq<char>, Seq<char>)>) -> Seq<(Seq<char>, Seq<char>)> {
    insert_all(Seq::empty(), honorific_pairs(d, hon))
}

/// The steps of one rule, or why it fails.
pub open spec fn rule_outcome(
    rule: Rule,
    hon: Seq<(Seq<char>, Seq<char>)>,
    contents: JsonValue,
    threshold: usize,
) -> Result<Seq<(Seq<char>, Seq<char>)>, ReplaceFailure> {
    let value = member(contents, rule.key@)->0;
    match rule.honorifics {
        None => match string_dict(value) {
            Some(d) => Ok(d),
            None => Err(ReplaceFailure::InvalidJson(rule.key@)),
        },
        Some((first, last)) => if rule.split {
            match names_dict(value) {
                Some(d) => names_outcome(d, hon, first, last, threshold),
                None => Err(ReplaceFailure::InvalidJson(rule.key@)),
            }
        } else {
            match string_dict(value) {
                Some(d) => Ok(honorific_dict(d, hon) + if first { Seq::empty() } else { d }),
                None => Err(ReplaceFailure::InvalidJson(rule.key@)),
            }
        },
    }
}

/// The text after every rule, in order, or the failure of the first rule
/// that fails.
pub open spec fn rules_outcome(
    rules: Seq<Rule>,
    hon: Seq<(Seq<char>, Seq<char>)>,
    contents: JsonValue,
    text: Seq<char>,
    threshold: usize,
) -> Result<Seq<char>, ReplaceFailure>
    decreases rules.len(),
{
    if rules.len() == 0 {
        Ok(text)
    } else {
        match rules_outcome(rules.drop_last(), hon, contents, text, threshold) {
            Err(f) => Err(f),
            Ok(t) => match rule_outcome(rules.last(), hon, contents, threshold) {
                Ok(p) => Ok(apply_all(t, p)),
                Err(f) => Err(f),
            },
        }
    }
}

// ---------------------------------------------------------------------------
/// Whether an entry's English parts and Japanese parts differ in number.
pub open spec fn mismatched(e: (Seq<char>, Seq<Seq<char>>)) -> bool {
    split_on(e.0, ' ').len() != e.1.len()
}

/// The position of the first entry whose parts do not pair up, or the
/// number of entries.
pub open spec fn mismatch_index(d: Seq<(Seq<char>, Seq<Seq<char>>)>) -> int
    decreases d.len(),
{
    if d.len() == 0 {
        0
    } else if mismatched(d[0]) {
        0
    } else {
        1 + mismatch_index(d.skip(1))
    }
}

/// The steps that a rule over split names applies, whether it succeeds or
/// not: all whole-name steps, then the part steps of every entry before the
/// first one whose parts do not pair up.
pub open spec fn names_applied(
    d: Seq<(Seq<char>, Seq<Seq<char>>)>,
    hon: Seq<(Seq<char>, Seq<char>)>,
    first: bool,
    last: bool,
    threshold: usize,
) -> Seq<(Seq<char>, Seq<char>)> {
    full_names_plan(d, hon) + parts_plan(d.take(mismatch_index(d)), hon, first, last, threshold)
}

/// The steps that a rule applies, whether it succeeds or not.
pub open spec fn rule_applied(
    rule: Rule,
    hon: Seq<(Seq<char>, Seq<char>)>,
    contents: JsonValue,
    threshold: usize,
) -> Seq<(Seq<char>, Seq<char>)> {
    let value = member(contents, rule.key@)->0;
    match rule.honorifics {
        None => match string_dict(value) {
            Some(d) => d,
            None => Seq::empty(),
        },
        Some((first, last)) => if rule.split {
            match names_dict(value) {
                Some(d) => names_applied(d, hon, first, last, threshold),
                None => Seq::empty(),
            }
        } else {
            match string_dict(value) {
                Some(d) => honorific_dict(d, hon) + if first { Seq::empty() } else { d },
                None => Seq::empty(),
            }
        },
    }
}

/// What the rules report, one group per rule that was applied, up to and
/// including the first rule that fails.
pub open spec fn rules_report(
    rules: Seq<Rule>,
    hon: Seq<(Seq<char>, Seq<char>)>,
    contents: JsonValue,
    text: Seq<char>,
    threshold: usize,
) -> Seq<Seq<(Seq<char>, Seq<char>, usize)>>
    decreases rules.len(),
{
    if rules.len() == 0 {
        Seq::empty()
    } else {
        let before = rules_report(rules.drop_last(), hon, contents, text, threshold);
        match rules_outcome(rules.drop_last(), hon, contents, text, threshold) {
            Err(_) => before,
            Ok(t) => before.push(plan_report(t, rule_applied(rules.last(), hon, contents, threshold))),
        }
    }
}

/// The character views of groups of replacements.
pub open spec fn group_views(v: Seq<Vec<Replacement>>) -> Seq<Seq<(Seq<char>, Seq<char>, usize)>> {
    v.map_values(|g: Vec<Replacement>| replacement_views(g@))
}

/// Applying a list of rules is applying its first part, then, from what
/// that gives, its second part; a failure in the first part is the
/// failure of the whole.
pub proof fn lemma_rules_split(
    rules1: Seq<Rule>,
    rules2: Seq<Rule>,
    hon: Seq<(Seq<char>, Seq<char>)>,
    contents: JsonValue,
    text: Seq<char>,
    threshold: usize,
)
    ensures
        rules_outcome(rules1 + rules2, hon, contents, text, threshold) == match rules_outcome(rules1, hon, contents, text, threshold) {
            Ok(m) => rules_outcome(rules2, hon, contents, m, threshold),
            Err(f) => Err(f),
        },
    decreases rules2.len(),
{
    if rules2.len() == 0 {
        assert(rules1 + rules2 =~= rules1);
        match rules_outcome(rules1, hon, contents, text, threshold) {
            Ok(m) => {},
            Err(f) => {},
        }
    } else {
        assert((rules1 + rules2).drop_last() =~= rules1 + rules2.drop_last());
        assert((rules1 + rules2).last() == rules2.last());
        lemma_rules_split(rules1, rules2.drop_last(), hon, contents, text, threshold);
    }
}

/// [`replace_string`] on a rule file equals [`replace_string`] on the file
/// with the first part of its rules, then on the file with the rest.
pub proof fn lemma_replace_in_two_parts(rep: Replacements, rep1: Replacements, rep2: Replacements, text: Seq<char>, threshold: usize)
    requires
        rep.rules@ == rep1.rules@ + rep2.rules@,
        rep1.honorifics@ == rep.honorifics@,
        rep2.honorifics@ == rep.honorifics@,
        rep1.contents == rep.contents,
        rep2.contents == rep.contents,
    ensures
        rules_outcome(rep.rules@, pair_views(rep.honorifics@), rep.contents, text, threshold) == match rules_outcome(
            rep1.rules@,
            pair_views(rep1.honorifics@),
            rep1.contents,
            text,
            threshold,
        ) {
            Ok(m) => rules_outcome(rep2.rules@, pair_views(rep2.honorifics@), rep2.contents, m, threshold),
            Err(f) => Err(f),
        },
{
    lemma_rules_split(rep1.rules@, rep2.rules@, pair_views(rep.honorifics@), rep.contents, text, threshold);
}

// Applying the plans

/// Applies one more step of a plan, reporting it when it finds something.
fn apply_step(
    output: String,
    find: &String,
    rep: &String,
    report: &mut Vec<Replacement>,
    Ghost(text): Ghost<Seq<char>>,
    Ghost(done): Ghost<Seq<(Seq<char>, Seq<char>)>>,
) -> (r: String)
    requires
        output@ == apply_all(text, done),
    ensures
        r@ == apply_all(text, done.push((find@, rep@))),
        replacement_views(final(report)@) == replacement_views(old(report)@) + step_report(apply_all(text, done), find@, rep@),
        plan_report(text, done.push((find@, rep@))) == plan_report(text, done) + step_report(apply_all(text, done), find@, rep@),
{
    let r = replace_counted(output, find, rep, report);
    assert(done.push((find@, rep@)).drop_last() =~= done);
    r
}

/// `base` followed by a hyphen and `suffix`.
fn hyphenated(base: &String, suffix: &String) -> (r: String)
    ensures
        r@ == base@ + "-"@ + suffix@,
{
    base.clone().concat("-").concat(suffix.as_str())
}

/// [`replace_names`], reporting each step that finds something.
fn replace_names_reporting(
    contents: String,
    rep_dict: &Vec<(String, Vec<String>)>,
    honorifics: &Vec<(String, String)>,
    first_name: bool,
    last_name: bool,
    threshold: usize,
    report: &mut Vec<Replacement>,
) -> (r: Result<String, ReplaceError>)
    ensures
        match names_outcome(names_views(rep_dict@), pair_views(honorifics@), first_name, last_name, threshold) {
            Ok(p) => r matches Ok(s) && s@ == apply_all(contents@, p),
            Err(f) => r matches Err(e) && e@ == f,
        },
        replacement_views(final(report)@) == replacement_views(old(report)@) + plan_report(
            contents@,
            names_applied(names_views(rep_dict@), pair_views(honorifics@), first_name, last_name, threshold),
        ),
{
    let ghost d = names_views(rep_dict@);
    let ghost hon = pair_views(honorifics@);
    let ghost text = contents@;
    let ghost start = replacement_views(report@);
    let mut output = contents;
    let ghost mut done: Seq<(Seq<char>, Seq<char>)> = Seq::empty();
    let mut k: usize = 0;
    assert(d.take(0) =~= Seq::<(Seq<char>, Seq<Seq<char>>)>::empty());
    assert(start + plan_report(text, done) =~= start);
    while k < rep_dict.len()
        invariant
            k <= rep_dict.len(),
            d == names_views(rep_dict@),
            hon == pair_views(honorifics@),
            done == full_names_plan(d.take(k as int), hon),
            output@ == apply_all(text, done),
            replacement_views(report@) == start + plan_report(text, done),
        decreases rep_dict.len() - k,
    {
        let en = &rep_dict[k].0;
        let jps = &rep_dict[k].1;
        let plain = join(jps, "");
        let ghost base = done;
        let mut j: usize = 0;
        assert(hon.take(0) =~= Seq::<(Seq<char>, Seq<char>)>::empty());
        assert(base + suffixed(plain@, en@, hon.take(0)) =~= base);
        while j < honorifics.len()
            invariant
                j <= honorifics.len(),
                hon == pair_views(honorifics@),
                done == base + suffixed(plain@, en@, hon.take(j as int)),
                output@ == apply_all(text, done),
                replacement_views(report@) == start + plan_report(text, done),
            decreases honorifics.len() - j,
        {
            let find = plain.clone().concat(honorifics[j].0.as_str());
            let rep = hyphenated(en, &honorifics[j].1);
            output = apply_step(output, &find, &rep, report, Ghost(text), Ghost(done));
            proof {
                assert(suffixed(plain@, en@, hon.take(j + 1)) =~= suffixed(plain@, en@, hon.take(j as int)).push((find@, rep@)));
                done = done.push((find@, rep@));
            }
            j = j + 1;
        }
        let dotted = join(jps, "・");
        output = apply_step(output, &dotted, en, report, Ghost(text), Ghost(done));
        proof {
            done = done.push((dotted@, en@));
        }
        output = apply_step(output, &plain, en, report, Ghost(text), Ghost(done));
        proof {
            done = done.push((plain@, en@));
            assert(d.take(k + 1).drop_last() =~= d.take(k as int));
            assert(d.take(k + 1).last() == d[k as int]);
            assert(hon.take(hon.len() as int) =~= hon);
            assert(done =~= full_names_plan(d.take(k + 1), hon));
        }
        k = k + 1;
    }
    assert(d.take(d.len() as int) =~= d);
    let ghost full = done;
    let mut k: usize = 0;
    assert(d.skip(0) =~= d);
    assert(d.take(0) =~= Seq::<(Seq<char>, Seq<Seq<char>>)>::empty());
    assert(full + parts_plan(d.take(0), hon, first_name, last_name, threshold) =~= full);
    while k < rep_dict.len()
        invariant
            k <= rep_dict.len(),
            d == names_views(rep_dict@),
            hon == pair_views(honorifics@),
            full == full_names_plan(d, hon),
            done == full + parts_plan(d.take(k as int), hon, first_name, last_name, threshold),
            output@ == apply_all(text, done),
            replacement_views(report@) == start + plan_report(text, done),
            start == replacement_views(old(report)@),
            text == contents@,
            first_mismatch(d) == first_mismatch(d.skip(k as int)),
            mismatch_index(d) == k + mismatch_index(d.skip(k as int)),
        decreases rep_dict.len() - k,
    {
        let en = &rep_dict[k].0;
        let jps = &rep_dict[k].1;
        let ens = split_char(en.as_str(), ' ');
        assert(d.skip(k as int)[0] == d[k as int]);
        assert(d.skip(k as int).skip(1) =~= d.skip(k + 1));
        if ens.len() != jps.len() {
            let jp_names = jps.clone();
            assert(views(jp_names@) =~= views(jps@));
            assert(mismatch_index(d) == k);
            return Err(ReplaceError::NameLengthMismatch { en_names: ens, jp_names });
        }
        let ghost base = done;
        let n = ens.len();
        let mut i: usize = 0;
        while i < n
            invariant
                i <= n == ens.len() == jps.len(),
                hon == pair_views(honorifics@),
                done == base + parts_steps(views(jps@), views(ens@), i as nat, hon, first_name, last_name, threshold),
                output@ == apply_all(text, done),
                replacement_views(report@) == start + plan_report(text, done),
            decreases n - i,
        {
            let ghost base2 = done;
            let jp = &jps[i];
            let part = &ens[i];
            let mut j: usize = 0;
            assert(hon.take(0) =~= Seq::<(Seq<char>, Seq<char>)>::empty());
            assert(base2 + suffixed(jp@, part@, hon.take(0)) =~= base2);
            while j < honorifics.len()
                invariant
                    j <= honorifics.len(),
                    hon == pair_views(honorifics@),
                    done == base2 + suffixed(jp@, part@, hon.take(j as int)),
                    output@ == apply_all(text, done),
                    replacement_views(report@) == start + plan_report(text, done),
                decreases honorifics.len() - j,
            {
                let find = jp.clone().concat(honorifics[j].0.as_str());
                let rep = hyphenated(part, &honorifics[j].1);
                output = apply_step(output, &find, &rep, report, Ghost(text), Ghost(done));
                proof {
                    assert(suffixed(jp@, part@, hon.take(j + 1)) =~= suffixed(jp@, part@, hon.take(j as int)).push((find@, rep@)));
                    done = done.push((find@, rep@));
                }
                j = j + 1;
            }
            assert(hon.take(hon.len() as int) =~= hon);
            let long = jp.as_str().len() > threshold;
            if (i == 0 && !first_name && long) || (i == n - 1 && !last_name && long) {
                output = apply_step(output, jp, part, report, Ghost(text), Ghost(done));
                proof {
                    done = done.push((jp@, part@));
                }
            }
            proof {
                assert(views(jps@)[i as int] == jp@);
                assert(views(ens@)[i as int] == part@);
                assert(done =~= base + parts_steps(views(jps@), views(ens@), (i + 1) as nat, hon, first_name, last_name, threshold));
            }
            i = i + 1;
        }
        proof {
            assert(d.take(k + 1).drop_last() =~= d.take(k as int));
            assert(d.take(k + 1).last() == d[k as int]);
            assert(done =~= full + parts_plan(d.take(k + 1), hon, first_name, last_name, threshold));
        }
        k = k + 1;
    }
    assert(d.take(d.len() as int) =~= d);
    assert(d.skip(d.len() as int).len() == 0);
    assert(mismatch_index(d) == d.len());
    Ok(output)
}

/// Replaces a split name rule's names in `contents`: first each whole name
/// (with each honorific, joined with a middle dot, joined plainly), then
/// each part of each name (with each honorific, and alone where the rule
/// translates that part alone and it is longer than `threshold` bytes).
/// Fails when an English name has another number of space-separated parts
/// than its Japanese name.
pub fn replace_names(
    contents: String,
    rep_dict: &Vec<(String, Vec<String>)>,
    honorifics: &Vec<(String, String)>,
    first_name: bool,
    last_name: bool,
    threshold: usize,
) -> (r: Result<String, ReplaceError>)
    ensures
        match names_outcome(names_views(rep_dict@), pair_views(honorifics@), first_name, last_name, threshold) {
            Ok(p) => r matches Ok(s) && s@ == apply_all(contents@, p),
            Err(f) => r matches Err(e) && e@ == f,
        },
{
    let mut report: Vec<Replacement> = Vec::new();
    replace_names_reporting(contents, rep_dict, honorifics, first_name, last_name, threshold, &mut report)
}

/// Inserts `(key, value)` into a list of pairs used as a map: the entry
/// with that key takes the value, or the pair is added at the end.
fn dict_insert_pair(dict: &mut Vec<(String, String)>, key: String, value: String)
    ensures
        pair_views(final(dict)@) == dict_insert(pair_views(old(dict)@), key@, value@),
{
    let ghost m = pair_views(dict@);
    let mut i = dict.len();
    assert(m.take(i as int) =~= m);
    while i > 0
        invariant
            i <= dict.len(),
            dict@ == old(dict)@,
            m == pair_views(dict@),
            key_position(m, key@) == key_position(m.take(i as int), key@),
        decreases i,
    {
        assert(m.take(i as int).drop_last() =~= m.take(i - 1));
        if dict[i - 1].0 == key {
            assert(m.take(i as int).last() == m[i - 1]);
            assert(key_position(m, key@) == i - 1);
            let ghost k = key@;
            let ghost v = value@;
            dict.set(i - 1, (key, value));
            assert(pair_views(dict@) =~= m.update(i - 1, (k, v)));
            return;
        }
        i = i - 1;
    }
    let ghost k = key@;
    let ghost v = value@;
    dict.push((key, value));
    assert(pair_views(dict@) =~= m.push((k, v)));
}

/// The honorific dictionary of a dictionary from English to Japanese
/// names: each Japanese name with each Japanese honorific, to the English
/// name, a hyphen and the English honorific.
fn honorific_dictionary(d: &Vec<(String, String)>, honorifics: &Vec<(String, String)>) -> (r: Vec<(String, String)>)
    ensures
        pair_views(r@) == honorific_dict(pair_views(d@), pair_views(honorifics@)),
{
    let ghost dv = pair_views(d@);
    let ghost hon = pair_views(honorifics@);
    let ghost mut pairs: Seq<(Seq<char>, Seq<char>)> = Seq::empty();
    let mut out: Vec<(String, String)> = Vec::new();
    let mut k: usize = 0;
    assert(dv.take(0) =~= Seq::<(Seq<char>, Seq<char>)>::empty());
    while k < d.len()
        invariant
            k <= d.len(),
            dv == pair_views(d@),
            hon == pair_views(honorifics@),
            pairs == honorific_pairs(dv.take(k as int), hon),
            pair_views(out@) == insert_all(Seq::empty(), pairs),
        decreases d.len() - k,
    {
        let en = &d[k].0;
        let jp = &d[k].1;
        let ghost base = pairs;
        let mut j: usize = 0;
        assert(hon.take(0) =~= Seq::<(Seq<char>, Seq<char>)>::empty());
        assert(base + suffixed(jp@, en@, hon.take(0)) =~= base);
        while j < honorifics.len()
            invariant
                j <= honorifics.len(),
                hon == pair_views(honorifics@),
                pairs == base + suffixed(jp@, en@, hon.take(j as int)),
                pair_views(out@) == insert_all(Seq::empty(), pairs),
            decreases honorifics.len() - j,
        {
            let find = jp.clone().concat(honorifics[j].0.as_str());
            let rep = hyphenated(en, &honorifics[j].1);
            let ghost step = (find@, rep@);
            dict_insert_pair(&mut out, find, rep);
            proof {
                assert(suffixed(jp@, en@, hon.take(j + 1)) =~= suffixed(jp@, en@, hon.take(j as int)).push(step));
                assert(pairs.push(step).drop_last() =~= pairs);
                pairs = pairs.push(step);
            }
            j = j + 1;
        }
        proof {
            assert(hon.take(hon.len() as int) =~= hon);
            assert(dv.take(k + 1).drop_last() =~= dv.take(k as int));
            assert(dv.take(k + 1).last() == dv[k as int]);
            assert(pairs =~= honorific_pairs(dv.take(k + 1), hon));
        }
        k = k + 1;
    }
    assert(dv.take(d.len() as int) =~= dv);
    out
}

/// Applies one rule to `output`, reporting each step that finds something.
fn apply_rule(output: String, rule: &Rule, rep: &Replacements, threshold: usize, report: &mut Vec<Replacement>) -> (r: Result<String, ReplaceError>)
    requires
        member(rep.contents, rule.key@) is Some,
    ensures
        match rule_outcome(*rule, pair_views(rep.honorifics@), rep.contents, threshold) {
            Ok(p) => r matches Ok(s) && s@ == apply_all(output@, p),
            Err(f) => r matches Err(e) && e@ == f,
        },
        replacement_views(final(report)@) == replacement_views(old(report)@) + plan_report(
            output@,
            rule_applied(*rule, pair_views(rep.honorifics@), rep.contents, threshold),
        ),
{
    let ghost start = replacement_views(report@);
    assert(start + plan_report(output@, Seq::empty()) =~= start);
    let value = match rep.contents.get(rule.key.as_str()) {
        Some(v) => v,
        None => {
            return Err(ReplaceError::InvalidJson { key: rule.key.clone() });
        },
    };
    match rule.honorifics {
        None => match value.as_string_dict() {
            Some(d) => Ok(replace_hashmap_reporting(output, &d, report)),
            None => Err(ReplaceError::InvalidJson { key: rule.key.clone() }),
        },
        Some((first, last)) => {
            if rule.split {
                match value.as_names_dict() {
                    Some(d) => replace_names_reporting(output, &d, &rep.honorifics, first, last, threshold, report),
                    None => Err(ReplaceError::InvalidJson { key: rule.key.clone() }),
                }
            } else {
                match value.as_string_dict() {
                    Some(d) => {
                        let hon_dict = honorific_dictionary(&d, &rep.honorifics);
                        let ghost text = output@;
                        let mut out = replace_hashmap_reporting(output, &hon_dict, report);
                        if !first {
                            out = replace_hashmap_reporting(out, &d, report);
                            proof {
                                lemma_apply_concat(text, pair_views(hon_dict@), pair_views(d@));
                                lemma_report_concat(text, pair_views(hon_dict@), pair_views(d@));
                            }
                        } else {
                            assert(pair_views(hon_dict@) + Seq::empty() =~= pair_views(hon_dict@));
                        }
                        Ok(out)
                    },
                    None => Err(ReplaceError::InvalidJson { key: rule.key.clone() }),
                }
            }
        },
    }
}

proof fn lemma_failure_persists(
    rules: Seq<Rule>,
    hon: Seq<(Seq<char>, Seq<char>)>,
    contents: JsonValue,
    text: Seq<char>,
    threshold: usize,
    m: int,
    n: int,
)
    requires
        0 <= m <= n <= rules.len(),
        rules_outcome(rules.take(m), hon, contents, text, threshold) is Err,
    ensures
        rules_outcome(rules.take(n), hon, contents, text, threshold) == rules_outcome(rules.take(m), hon, contents, text, threshold),
        rules_report(rules.take(n), hon, contents, text, threshold) == rules_report(rules.take(m), hon, contents, text, threshold),
    decreases n - m,
{
    if n > m {
        lemma_failure_persists(rules, hon, contents, text, threshold, m, n - 1);
        assert(rules.take(n).drop_last() =~= rules.take(n - 1));
    }
}

/// Applies every rule, in order, to `contents`, and stops at the first
/// rule that fails; each rule's key must name a member of the contents, as
/// [`verify_rules`] makes sure. Besides the result it gives, for each rule
/// that was applied, the steps that found something, with their counts.
pub fn replace_string_reporting(rep: &Replacements, contents: String, threshold: usize) -> (r: (Result<String, ReplaceError>, Vec<Vec<Replacement>>))
    requires
        keys_present(*rep),
    ensures
        match rules_outcome(rep.rules@, pair_views(rep.honorifics@), rep.contents, contents@, threshold) {
            Ok(t) => r.0 matches Ok(s) && s@ == t,
            Err(f) => r.0 matches Err(e) && e@ == f,
        },
        group_views(r.1@) == rules_report(rep.rules@, pair_views(rep.honorifics@), rep.contents, contents@, threshold),
{
    let ghost hon = pair_views(rep.honorifics@);
    let ghost text = contents@;
    let mut output = contents;
    let mut groups: Vec<Vec<Replacement>> = Vec::new();
    let mut i: usize = 0;
    assert(rep.rules@.take(0) =~= Seq::<Rule>::empty());
    assert(group_views(groups@) =~= Seq::empty());
    while i < rep.rules.len()
        invariant
            i <= rep.rules.len(),
            keys_present(*rep),
            text == contents@,
            hon == pair_views(rep.honorifics@),
            rules_outcome(rep.rules@.take(i as int), hon, rep.contents, text, threshold) == Ok::<Seq<char>, ReplaceFailure>(output@),
            group_views(groups@) == rules_report(rep.rules@.take(i as int), hon, rep.contents, text, threshold),
        decreases rep.rules.len() - i,
    {
        let ghost pre = rep.rules@.take(i + 1);
        assert(pre.drop_last() =~= rep.rules@.take(i as int));
        assert(pre.last() == rep.rules@[i as int]);
        assert(member(rep.contents, rep.rules@[i as int].key@) is Some);
        let ghost before = output@;
        let mut group: Vec<Replacement> = Vec::new();
        let result = apply_rule(output, &rep.rules[i], rep, threshold, &mut group);
        assert(replacement_views(group@) =~= plan_report(before, rule_applied(rep.rules@[i as int], hon, rep.contents, threshold)));
        groups.push(group);
        assert(group_views(groups@) =~= rules_report(pre, hon, rep.contents, text, threshold));
        match result {
            Ok(o) => {
                output = o;
            },
            Err(e) => {
                proof {
                    assert(rules_outcome(pre, hon, rep.contents, text, threshold) == Err::<Seq<char>, ReplaceFailure>(e@));
                    lemma_failure_persists(rep.rules@, hon, rep.contents, text, threshold, i + 1, rep.rules@.len() as int);
                    assert(rep.rules@.take(rep.rules@.len() as int) =~= rep.rules@);
                }
                return (Err(e), groups);
            },
        }
        i = i + 1;
    }
    assert(rep.rules@.take(rep.rules@.len() as int) =~= rep.rules@);
    (Ok(output), groups)
}

/// Applies every rule, in order, to `contents`; stops at the first rule
/// that fails. Each rule's key must name a member of the contents, as
/// [`verify_rules`] makes sure.
pub fn replace_string(rep: &Replacements, contents: String, threshold: usize) -> (r: Result<String, ReplaceError>)
    requires
        keys_present(*rep),
    ensures
        match rules_outcome(rep.rules@, pair_views(rep.honorifics@), rep.contents, contents@, threshold) {
            Ok(t) => r matches Ok(s) && s@ == t,
            Err(f) => r matches Err(e) && e@ == f,
        },
{
    let (r, _) = replace_string_reporting(rep, contents, threshold);
    r
}

} // verus!
