use novel_tools::replace::{count_matches, replace_counted, replace_hashmap_reporting, Replacement};
use novel_tools::replace::{replace_hashmap, replace_single};

fn s(x: &str) -> String {
    x.to_string()
}

#[test]
fn replaces_every_occurrence() {
    assert_eq!(replace_single(s("aXbXc"), &s("X"), &s("YY")), "aYYbYYc");
    assert_eq!(replace_single(s("太郎は太郎"), &s("太郎"), &s("Taro")), "TaroはTaro");
}

#[test]
fn occurrences_do_not_overlap() {
    assert_eq!(replace_single(s("aaa"), &s("aa"), &s("b")), "ba");
    assert_eq!(replace_single(s("aaaa"), &s("aa"), &s("b")), "bb");
}

#[test]
fn absent_pattern_leaves_text_unchanged() {
    assert_eq!(replace_single(s("hello"), &s("xyz"), &s("!")), "hello");
    assert_eq!(replace_single(s(""), &s("x"), &s("y")), "");
}

#[test]
fn replacing_a_text_by_itself_changes_nothing() {
    assert_eq!(replace_single(s("abcabc"), &s("bc"), &s("bc")), "abcabc");
}

#[test]
fn empty_pattern_surrounds_every_character() {
    assert_eq!(replace_single(s("ab"), &s(""), &s("x")), "xaxbx");
    assert_eq!(replace_single(s(""), &s(""), &s("x")), "x");
}

#[test]
fn agrees_with_std_replace() {
    let texts = ["", "abc", "abababa", "名前名前前", "xx yy xx", "aaaaa"];
    let pats = ["", "a", "ab", "aba", "名前", "前", "xx", "zz"];
    let reps = ["", "Q", "名", "ab"];
    for t in texts {
        for p in pats {
            for r in reps {
                assert_eq!(replace_single(s(t), &s(p), &s(r)), t.replace(p, r), "{t} {p} {r}");
            }
        }
    }
}

#[test]
fn map_entries_apply_in_order() {
    let map = vec![(s("a"), s("b")), (s("b"), s("c"))];
    assert_eq!(replace_hashmap(s("ab"), &map), "cc");
    let map = vec![(s("b"), s("c")), (s("a"), s("b"))];
    assert_eq!(replace_hashmap(s("ab"), &map), "bc");
    assert_eq!(replace_hashmap(s("ab"), &vec![]), "ab");
}

#[test]
fn match_counts() {
    assert_eq!(count_matches("太郎と太郎", "太郎"), 2);
    assert_eq!(count_matches("aaa", "aa"), 1);
    assert_eq!(count_matches("ab", ""), 3);
    assert_eq!(count_matches("abc", "x"), 0);
    for t in ["", "abababa", "名前名前前", "aaaaa"] {
        for p in ["", "a", "ab", "aba", "名前", "前"] {
            assert_eq!(count_matches(t, p), t.matches(p).count(), "{t} {p}");
        }
    }
}

#[test]
fn counted_replacement_reports_what_it_found() {
    let mut report = Vec::new();
    let out = replace_counted(s("太郎と太郎"), &s("太郎"), &s("Taro"), &mut report);
    assert_eq!(out, "TaroとTaro");
    assert_eq!(report, vec![Replacement { find: s("太郎"), replace: s("Taro"), count: 2 }]);
    let out = replace_counted(s("abc"), &s("x"), &s("y"), &mut report);
    assert_eq!(out, "abc");
    assert_eq!(report.len(), 1);
}

#[test]
fn map_report_lists_entries_that_found_something() {
    let map = vec![(s("a"), s("b")), (s("z"), s("y")), (s("b"), s("c"))];
    let mut report = Vec::new();
    assert_eq!(replace_hashmap_reporting(s("ab"), &map, &mut report), "cc");
    assert_eq!(
        report,
        vec![
            Replacement { find: s("a"), replace: s("b"), count: 1 },
            Replacement { find: s("b"), replace: s("c"), count: 2 },
        ]
    );
}
